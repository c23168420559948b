//! What filtered bytes stand for.

use vstd::prelude::*;

use crate::ascii::{
    all_digits85, ascii85_decoded, ascii_hex_decoded, before_mark, four_bytes, group_bytes, group_length, group_value,
    groups_decoded, paired, solid, value85, LETTER_Z, TILDE,
};
use crate::errors::Error;
use crate::filters::{
    decoded, filter_names, parameters_of, undone, unfiltered, within, KEY_DECODE_PARMS, KEY_FILTER, KEY_PREDICTOR,
    NAME_ASCII85_DECODE, NAME_ASCII_HEX_DECODE, NAME_FLATE_DECODE,
};
use crate::laws::syntax::writes;
use crate::lex::{hex_digit, whitespace, GREATER};
use crate::object::{dict_get, DictionaryView, ObjectView};
use crate::parser::hex_value;
use crate::predictor::{
    byte_before, layout_of, nearest, next_byte, prediction, restored, row_of, rows_from, Layout, KEY_BITS_PER_COMPONENT,
    KEY_COLORS, KEY_COLUMNS,
};

verus! {

/// Where no mark stands in the front, it is all in front of the mark.
proof fn lemma_before_mark(front: Seq<u8>, mark: u8, rest: Seq<u8>)
    requires
        forall|i: int| 0 <= i < front.len() ==> #[trigger] front[i] != mark,
    ensures
        before_mark(front + seq![mark] + rest, mark) == front,
        before_mark(front, mark) == front,
    decreases front.len(),
{
    let s = front + seq![mark] + rest;
    if front.len() == 0 {
        assert(s[0] == mark);
        assert(front =~= Seq::empty());
    } else {
        assert(front[0] != mark);
        let shorter = front.skip(1);
        assert forall|i: int| 0 <= i < shorter.len() implies #[trigger] shorter[i] != mark by {
            assert(front[i + 1] != mark);
        }
        lemma_before_mark(shorter, mark, rest);
        assert(s.skip(1) =~= shorter + seq![mark] + rest);
        assert(seq![front[0]] + shorter =~= front);
    }
}

/// Text without white space is solid.
proof fn lemma_solid(s: Seq<u8>)
    requires
        forall|i: int| 0 <= i < s.len() ==> !whitespace(#[trigger] s[i]),
    ensures
        solid(s) == s,
    decreases s.len(),
{
    if s.len() > 0 {
        assert(!whitespace(s[s.len() - 1]));
        let shorter = s.drop_last();
        assert forall|i: int| 0 <= i < shorter.len() implies !whitespace(#[trigger] shorter[i]) by {
            assert(!whitespace(s[i]));
        }
        lemma_solid(shorter);
        assert(shorter.push(s.last()) =~= s);
    }
}

proof fn lemma_solid_append(one: Seq<u8>, other: Seq<u8>)
    ensures
        solid(one + other) == solid(one) + solid(other),
    decreases other.len(),
{
    if other.len() == 0 {
        assert(one + other =~= one);
        assert(solid(one) + solid(other) =~= solid(one));
    } else {
        lemma_solid_append(one, other.drop_last());
        assert((one + other).drop_last() =~= one + other.drop_last());
        assert(solid(one + other) =~= solid(one) + solid(other));
    }
}

/// A mark cuts off what stands behind it.
proof fn lemma_mark_cuts(front: Seq<u8>, mark: u8, rest: Seq<u8>)
    requires
        front.contains(mark),
    ensures
        before_mark(front + rest, mark) == before_mark(front, mark),
    decreases front.len(),
{
    if front[0] != mark {
        let shorter = front.skip(1);
        let i = choose|i: int| 0 <= i < front.len() && front[i] == mark;
        assert(shorter[i - 1] == mark);
        lemma_mark_cuts(shorter, mark, rest);
        assert((front + rest).skip(1) =~= shorter + rest);
    }
}

proof fn lemma_no_mark_yet(front: Seq<u8>, mark: u8, rest: Seq<u8>)
    requires
        !front.contains(mark),
    ensures
        before_mark(front + rest, mark) == front + before_mark(rest, mark),
    decreases front.len(),
{
    if front.len() == 0 {
        assert(front + rest =~= rest);
        assert(front + before_mark(rest, mark) =~= before_mark(rest, mark));
    } else {
        assert(front.contains(front[0]));
        let shorter = front.skip(1);
        assert forall|i: int| 0 <= i < shorter.len() implies #[trigger] shorter[i] != mark by {
            assert(front[i + 1] == shorter[i]);
            assert(front.contains(front[i + 1]));
        }
        lemma_no_mark_yet(shorter, mark, rest);
        assert((front + rest).skip(1) =~= shorter + rest);
        assert(seq![front[0]] + (shorter + before_mark(rest, mark)) =~= front + before_mark(rest, mark));
    }
}

proof fn lemma_blank_in_text(front: Seq<u8>, blank: u8, rest: Seq<u8>, mark: u8)
    requires
        whitespace(blank),
        !whitespace(mark),
    ensures
        solid(before_mark(front + seq![blank] + rest, mark)) == solid(before_mark(front + rest, mark)),
{
    if front.contains(mark) {
        assert(front + seq![blank] + rest =~= front + (seq![blank] + rest));
        lemma_mark_cuts(front, mark, seq![blank] + rest);
        lemma_mark_cuts(front, mark, rest);
    } else {
        assert(front + seq![blank] + rest =~= front + (seq![blank] + rest));
        lemma_no_mark_yet(front, mark, seq![blank] + rest);
        lemma_no_mark_yet(front, mark, rest);
        assert forall|i: int| 0 <= i < 1 implies #[trigger] seq![blank][i] != mark by {}
        lemma_no_mark_yet(seq![blank], mark, rest);
        let tail = before_mark(rest, mark);
        lemma_solid_append(front, seq![blank] + tail);
        lemma_solid_append(front, tail);
        lemma_solid_append(seq![blank], tail);
        assert(seq![blank].drop_last() =~= Seq::empty());
        assert(seq![blank].last() == blank);
        assert(solid(Seq::<u8>::empty()) == Seq::<u8>::empty());
        assert(solid(seq![blank]) =~= Seq::empty());
        assert(solid(seq![blank]) + solid(tail) =~= solid(tail));
    }
}

/// White space means nothing in either kind of text, wherever it stands.
pub proof fn law_white_space_means_nothing(front: Seq<u8>, blank: u8, rest: Seq<u8>)
    requires
        blank == 0 || blank == 9 || blank == 10 || blank == 12 || blank == 13 || blank == 32,
    ensures
        ascii_hex_decoded(front + seq![blank] + rest) == ascii_hex_decoded(front + rest),
        ascii85_decoded(front + seq![blank] + rest) == ascii85_decoded(front + rest),
{
    lemma_blank_in_text(front, blank, rest, GREATER);
    lemma_blank_in_text(front, blank, rest, TILDE);
}

/// Hexadecimal text gives back the bytes that its digits write, two digits a byte and
/// the upper half first, up to `>`. A last digit without a partner writes an upper half.
pub proof fn law_hexadecimal_text_gives_its_bytes(bytes: Seq<u8>, digits: Seq<u8>, rest: Seq<u8>)
    requires
        2 * bytes.len() - 1 <= digits.len() <= 2 * bytes.len(),
        forall|i: int|
            0 <= i < bytes.len() ==> writes(digits[2 * i], (#[trigger] bytes[i]) as int / 16) && (if 2 * i + 1
                < digits.len() {
                writes(digits[2 * i + 1], bytes[i] as int % 16)
            } else {
                bytes[i] % 16 == 0
            }),
    ensures
        ascii_hex_decoded(digits + seq![0x3eu8] + rest) == Ok::<Seq<u8>, Error>(bytes),
        ascii_hex_decoded(digits) == Ok::<Seq<u8>, Error>(bytes),
{
    assert forall|i: int| 0 <= i < digits.len() implies hex_digit(#[trigger] digits[i]) && digits[i] != GREATER
        && !whitespace(digits[i]) by {
        let byte = bytes[i / 2];
        assert(writes(digits[2 * (i / 2)], byte as int / 16));
        if i % 2 == 1 {
            assert(i == 2 * (i / 2) + 1);
            assert(writes(digits[2 * (i / 2) + 1], byte as int % 16));
        } else {
            assert(i == 2 * (i / 2));
        }
    }
    lemma_before_mark(digits, GREATER, rest);
    lemma_solid(digits);
    let found = paired(digits);
    assert(found.len() == bytes.len());
    assert forall|i: int| 0 <= i < bytes.len() implies #[trigger] found[i] == bytes[i] by {
        assert(writes(digits[2 * i], bytes[i] as int / 16));
        assert(hex_value(digits[2 * i]) == bytes[i] as int / 16);
        if 2 * i + 1 < digits.len() {
            assert(writes(digits[2 * i + 1], bytes[i] as int % 16));
            assert(hex_value(digits[2 * i + 1]) == bytes[i] as int % 16);
        }
    }
    assert(found =~= bytes);
}

/// The number that four bytes make, the first the highest; a missing byte counts as
/// zero.
pub open spec fn number_of(bytes: Seq<u8>) -> int {
    let at = |i: int| if i < bytes.len() {
        bytes[i] as int
    } else {
        0
    };
    at(0) * 16777216 + at(1) * 65536 + at(2) * 256 + at(3)
}

/// The five digits write the number in base 85, the first the highest, from `!` for
/// zero up to `u`.
pub open spec fn five_digits(digits: Seq<u8>, value: int) -> bool {
    &&& digits.len() == 5
    &&& forall|i: int| 0 <= i < 5 ==> 0x21 <= #[trigger] digits[i] <= 0x75
    &&& value == (digits[0] - 0x21) * 52200625 + (digits[1] - 0x21) * 614125 + (digits[2] - 0x21) * 7225 + (digits[3]
        - 0x21) * 85 + (digits[4] - 0x21)
}

/// The text writes the bytes in base 85: four bytes in five digits, four zeros also as
/// `z`, and of a shorter rest of bytes, filled up with zeros, one digit more than it has
/// bytes.
pub open spec fn writes85(text: Seq<u8>, bytes: Seq<u8>) -> bool
    decreases text.len(),
{
    if text.len() == 0 {
        bytes.len() == 0
    } else if text[0] == 0x7a {
        bytes.len() >= 4 && number_of(bytes.take(4)) == 0 && writes85(text.skip(1), bytes.skip(4))
    } else if text.len() >= 5 {
        bytes.len() >= 4 && five_digits(text.take(5), number_of(bytes.take(4))) && writes85(text.skip(5), bytes.skip(4))
    } else {
        bytes.len() > 0 && text.len() == bytes.len() + 1 && exists|digits: Seq<u8>| #[trigger]
            five_digits(digits, number_of(bytes)) && digits.take(text.len() as int) == text
    }
}

proof fn lemma_four_bytes(value: int, bytes: Seq<u8>)
    requires
        bytes.len() == 4,
        value == number_of(bytes),
    ensures
        four_bytes(value) == bytes,
        0 <= value <= u32::MAX,
{
    let (a, b, c, d) = (bytes[0] as int, bytes[1] as int, bytes[2] as int, bytes[3] as int);
    assert(value == a * 16777216 + b * 65536 + c * 256 + d);
    assert(value / 0x100_0000 == a);
    assert(value / 0x1_0000 == a * 256 + b);
    assert(value / 0x100 == a * 65536 + b * 256 + c);
    assert(four_bytes(value) =~= bytes);
}

/// The bytes of a group of digits.
proof fn lemma_group(digits: Seq<u8>, bytes: Seq<u8>, count: int)
    requires
        five_digits(digits, number_of(bytes)),
        1 <= bytes.len() <= 4,
        count == bytes.len() + 1,
    ensures
        group_bytes(digits.take(count)) == Ok::<Seq<u8>, Error>(bytes),
{
    let group = digits.take(count);
    let value = number_of(bytes);
    let found = group_value(group);
    assert(digits[0] >= 0x21 && digits[1] >= 0x21 && digits[2] >= 0x21 && digits[3] >= 0x21 && digits[4] >= 0x21);
    assert(digits[0] <= 0x75 && digits[1] <= 0x75 && digits[2] <= 0x75 && digits[3] <= 0x75 && digits[4] <= 0x75);
    assert(all_digits85(group));
    let a = bytes[0] as int;
    let b = if bytes.len() > 1 {
        bytes[1] as int
    } else {
        0
    };
    let c = if bytes.len() > 2 {
        bytes[2] as int
    } else {
        0
    };
    let d = if bytes.len() > 3 {
        bytes[3] as int
    } else {
        0
    };
    assert(value == a * 16777216 + b * 65536 + c * 256 + d);
    let v2 = value85(group, 2);
    let v3 = value85(group, 3);
    let v4 = value85(group, 4);
    assert(found == value85(group, 0) * 52200625 + value85(group, 1) * 614125 + v2 * 7225 + v3 * 85 + v4);
    let (d2, d3, d4) = (digits[2] - 0x21, digits[3] - 0x21, digits[4] - 0x21);
    assert(found - value == (v2 - d2) * 7225 + (v3 - d3) * 85 + (v4 - d4));
    assert(count >= 3 ==> v2 == d2);
    assert(count >= 4 ==> v3 == d3);
    assert(count >= 5 ==> v4 == d4);
    lemma_top_bytes(value, found, a, b, c, d, bytes.len() as int);
    assert(four_bytes(found).take(count - 1) =~= bytes);
}

/// A number that exceeds another by less than its lowest bytes make out has the same
/// highest bytes.
proof fn lemma_top_bytes(value: int, found: int, a: int, b: int, c: int, d: int, count: int)
    requires
        value == a * 16777216 + b * 65536 + c * 256 + d,
        0 <= a < 256,
        0 <= b < 256,
        0 <= c < 256,
        0 <= d < 256,
        1 <= count <= 4,
        count < 2 ==> b == 0,
        count < 3 ==> c == 0,
        count < 4 ==> d == 0,
        value <= found,
        count == 4 ==> found == value,
        count == 3 ==> found <= value + 84,
        count == 2 ==> found <= value + 7224,
        count == 1 ==> found <= value + 614124,
    ensures
        found <= u32::MAX,
        found / 0x100_0000 == a,
        count >= 2 ==> found / 0x1_0000 % 0x100 == b,
        count >= 3 ==> found / 0x100 % 0x100 == c,
        count >= 4 ==> found % 0x100 == d,
{
    assert(found / 0x100_0000 == a);
    if count >= 2 {
        assert(found / 0x1_0000 == a * 256 + b);
    }
    if count >= 3 {
        assert(found / 0x100 == a * 65536 + b * 256 + c);
    }
}

/// Where the text before `position` is cut off, the rest is decoded alike.
proof fn lemma_groups_shift(s: Seq<u8>, position: int)
    requires
        0 <= position <= s.len(),
    ensures
        groups_decoded(s, position) == groups_decoded(s.skip(position), 0),
{
    lemma_groups_shift_by(s, position, 0);
}

proof fn lemma_groups_shift_by(s: Seq<u8>, shift: int, position: int)
    requires
        0 <= shift,
        0 <= position,
        shift + position <= s.len(),
    ensures
        groups_decoded(s, shift + position) == groups_decoded(s.skip(shift), position),
    decreases s.len() - shift - position,
{
    let t = s.skip(shift);
    if position < t.len() {
        assert(t[position] == s[shift + position]);
        if t[position] == LETTER_Z {
            lemma_groups_shift_by(s, shift, position + 1);
        } else {
            let length = group_length(t, position);
            assert(length == group_length(s, shift + position));
            assert(t.subrange(position, position + length) =~= s.subrange(shift + position, shift + position + length));
            lemma_groups_shift_by(s, shift, position + length);
        }
    }
}

proof fn lemma_writes85(text: Seq<u8>, bytes: Seq<u8>)
    requires
        writes85(text, bytes),
    ensures
        groups_decoded(text, 0) == Ok::<Seq<u8>, Error>(bytes),
        forall|i: int| 0 <= i < text.len() ==> 0x21 <= #[trigger] text[i] <= 0x7a,
    decreases text.len(),
{
    if text.len() == 0 {
        assert(bytes =~= Seq::empty());
    } else if text[0] == 0x7a {
        lemma_writes85(text.skip(1), bytes.skip(4));
        lemma_groups_shift(text, 1);
        lemma_four_bytes(0, bytes.take(4));
        assert(bytes.take(4) + bytes.skip(4) =~= bytes);
        assert forall|i: int| 0 <= i < text.len() implies 0x21 <= #[trigger] text[i] <= 0x7a by {
            if i > 0 {
                assert(text.skip(1)[i - 1] == text[i]);
            }
        }
    } else if text.len() >= 5 {
        lemma_writes85(text.skip(5), bytes.skip(4));
        lemma_groups_shift(text, 5);
        let group = text.take(5);
        assert(group.take(5) =~= group);
        assert(text.subrange(0, 5) =~= group);
        lemma_group(group, bytes.take(4), 5);
        assert(bytes.take(4) + bytes.skip(4) =~= bytes);
        assert forall|i: int| 0 <= i < text.len() implies 0x21 <= #[trigger] text[i] <= 0x7a by {
            if i >= 5 {
                assert(text.skip(5)[i - 5] == text[i]);
            } else {
                assert(group[i] == text[i]);
            }
        }
    } else {
        let digits = choose|digits: Seq<u8>| #[trigger]
            five_digits(digits, number_of(bytes)) && digits.take(text.len() as int) == text;
        lemma_group(digits, bytes, text.len() as int);
        assert(text.subrange(0, text.len() as int) =~= text);
        assert(groups_decoded(text, text.len() as int) == Ok::<Seq<u8>, Error>(Seq::empty()));
        assert(bytes + Seq::<u8>::empty() =~= bytes);
        assert forall|i: int| 0 <= i < text.len() implies 0x21 <= #[trigger] text[i] <= 0x7a by {
            assert(digits[i] == text[i]);
        }
    }
}

/// Base-85 text gives back the bytes that it writes, up to `~`.
pub proof fn law_base85_text_gives_its_bytes(text: Seq<u8>, bytes: Seq<u8>, rest: Seq<u8>)
    requires
        writes85(text, bytes),
    ensures
        ascii85_decoded(text + seq![0x7eu8] + rest) == Ok::<Seq<u8>, Error>(bytes),
{
    lemma_writes85(text, bytes);
    assert forall|i: int| 0 <= i < text.len() implies #[trigger] text[i] != TILDE && !whitespace(text[i]) by {}
    lemma_before_mark(text, TILDE, rest);
    lemma_solid(text);
}

/// What the filter at `index` has for parameters: its own of several, else those that
/// the stream has.
pub open spec fn own_parameters(dict: DictionaryView, index: int) -> Option<ObjectView> {
    match dict_get(dict, seq![0x44u8, 0x65, 0x63, 0x6f, 0x64, 0x65, 0x50, 0x61, 0x72, 0x6d, 0x73]) {
        Some(ObjectView::Array(items)) => if index < items.len() {
            Some(items[index])
        } else {
            None
        },
        other => other,
    }
}

/// The filters of a stream are undone in the order in which it names them, each with its
/// own parameters, the first on the stream's content and each further one on what the
/// one before it gave.
pub proof fn law_filters_are_undone_in_turn(
    dict: DictionaryView,
    filters: Seq<ObjectView>,
    steps: Seq<Seq<u8>>,
    limit: usize,
)
    requires
        dict_get(dict, seq![0x46u8, 0x69, 0x6c, 0x74, 0x65, 0x72]) == Some(ObjectView::Array(filters)),
        steps.len() == filters.len() + 1,
        forall|i: int| 0 <= i < filters.len() ==> (#[trigger] filters[i]) is Name,
        forall|i: int|
            0 <= i < filters.len() ==> undone((#[trigger] filters[i])->Name_0, own_parameters(dict, i), steps[i], limit)
                == Ok::<Seq<u8>, Error>(steps[i + 1]),
        steps.last().len() <= limit,
    ensures
        decoded(dict, steps[0], limit) == Ok::<Seq<u8>, Error>(steps.last()),
{
    assert(KEY_FILTER@ =~= seq![0x46u8, 0x69, 0x6c, 0x74, 0x65, 0x72]);
    assert(KEY_DECODE_PARMS@ =~= seq![0x44u8, 0x65, 0x63, 0x6f, 0x64, 0x65, 0x50, 0x61, 0x72, 0x6d, 0x73]);
    let names = Seq::new(filters.len(), |i: int| filters[i]->Name_0);
    assert(filter_names(dict) == Ok::<Seq<Seq<u8>>, Error>(names));
    lemma_filters_undone(dict, names, filters, steps, 0, limit);
}

proof fn lemma_filters_undone(
    dict: DictionaryView,
    names: Seq<Seq<u8>>,
    filters: Seq<ObjectView>,
    steps: Seq<Seq<u8>>,
    index: int,
    limit: usize,
)
    requires
        names == Seq::new(filters.len(), |i: int| filters[i]->Name_0),
        steps.len() == filters.len() + 1,
        0 <= index <= filters.len(),
        KEY_DECODE_PARMS@ == seq![0x44u8, 0x65, 0x63, 0x6f, 0x64, 0x65, 0x50, 0x61, 0x72, 0x6d, 0x73],
        forall|i: int|
            0 <= i < filters.len() ==> undone((#[trigger] filters[i])->Name_0, own_parameters(dict, i), steps[i], limit)
                == Ok::<Seq<u8>, Error>(steps[i + 1]),
        steps.last().len() <= limit,
    ensures
        unfiltered(dict, names, index, steps[index], limit) == Ok::<Seq<u8>, Error>(steps.last()),
    decreases filters.len() - index,
{
    if index < filters.len() {
        assert(names[index] == filters[index]->Name_0);
        assert(own_parameters(dict, index) == parameters_of(dict, index));
        lemma_filters_undone(dict, names, filters, steps, index + 1, limit);
    }
}

/// A single filter may be named by itself, and a stream without filters is its content.
pub proof fn law_single_filters(dict: DictionaryView, content: Seq<u8>, limit: usize)
    ensures
        dict_get(dict, seq![0x46u8, 0x69, 0x6c, 0x74, 0x65, 0x72]) matches Some(ObjectView::Name(name)) ==> decoded(
            dict,
            content,
            limit,
        ) == within(undone(name, own_parameters(dict, 0), content, limit), limit),
        dict_get(dict, seq![0x46u8, 0x69, 0x6c, 0x74, 0x65, 0x72]) is None && content.len() <= limit ==> decoded(
            dict,
            content,
            limit,
        ) == Ok::<Seq<u8>, Error>(content),
        decoded(dict, content, limit) matches Ok(bytes) ==> bytes.len() <= limit,
{
    assert(KEY_FILTER@ =~= seq![0x46u8, 0x69, 0x6c, 0x74, 0x65, 0x72]);
    assert(KEY_DECODE_PARMS@ =~= seq![0x44u8, 0x65, 0x63, 0x6f, 0x64, 0x65, 0x50, 0x61, 0x72, 0x6d, 0x73]);
    assert(own_parameters(dict, 0) == parameters_of(dict, 0));
    if let Some(ObjectView::Name(name)) = dict_get(dict, KEY_FILTER@) {
        let names = seq![name];
        match undone(name, parameters_of(dict, 0), content, limit) {
            Ok(bytes) => {
                assert(unfiltered(dict, names, 1, bytes, limit) == within(Ok(bytes), limit));
            },
            Err(_) => {},
        }
    }
    if let Ok(names) = filter_names(dict) {
        lemma_limit_holds(dict, names, 0, content, limit);
    }
}

proof fn lemma_limit_holds(dict: DictionaryView, names: Seq<Seq<u8>>, index: int, content: Seq<u8>, limit: usize)
    ensures
        unfiltered(dict, names, index, content, limit) matches Ok(bytes) ==> bytes.len() <= limit,
    decreases names.len() - index,
{
    if index < names.len() {
        if let Ok(bytes) = undone(names[index], parameters_of(dict, index), content, limit) {
            lemma_limit_holds(dict, names, index + 1, bytes, limit);
        }
    }
}

/// The filters go by their names.
pub proof fn law_filters_go_by_their_names(parameters: Option<ObjectView>, content: Seq<u8>, limit: usize)
    ensures
        undone(
            seq![0x41u8, 0x53, 0x43, 0x49, 0x49, 0x48, 0x65, 0x78, 0x44, 0x65, 0x63, 0x6f, 0x64, 0x65],
            parameters,
            content,
            limit,
        ) == within(ascii_hex_decoded(content), limit),
        undone(
            seq![0x41u8, 0x53, 0x43, 0x49, 0x49, 0x38, 0x35, 0x44, 0x65, 0x63, 0x6f, 0x64, 0x65],
            parameters,
            content,
            limit,
        ) == within(ascii85_decoded(content), limit),
{
    let hex = seq![0x41u8, 0x53, 0x43, 0x49, 0x49, 0x48, 0x65, 0x78, 0x44, 0x65, 0x63, 0x6f, 0x64, 0x65];
    let base85 = seq![0x41u8, 0x53, 0x43, 0x49, 0x49, 0x38, 0x35, 0x44, 0x65, 0x63, 0x6f, 0x64, 0x65];
    assert(NAME_ASCII_HEX_DECODE@ =~= hex);
    assert(NAME_ASCII85_DECODE@ =~= base85);
    assert(NAME_FLATE_DECODE@.len() == 11 && hex.len() == 14 && base85.len() == 13);
}

/// How far two numbers lie apart.
pub open spec fn apart(one: int, other: int) -> int {
    if one >= other {
        one - other
    } else {
        other - one
    }
}

/// Of the neighbours to the left, above and in the corner between them, `guess` is the
/// one that is nearest to the sum of the first two less the third; of two that are as
/// near, the left goes before the one above and that before the corner.
pub open spec fn best_guess(guess: int, left: int, above: int, corner: int) -> bool {
    let sum = left + above - corner;
    ||| guess == left && apart(sum, left) <= apart(sum, above) && apart(sum, left) <= apart(sum, corner)
    ||| guess == above && apart(sum, above) < apart(sum, left) && apart(sum, above) <= apart(sum, corner)
    ||| guess == corner && apart(sum, corner) < apart(sum, left) && apart(sum, corner) < apart(sum, above)
}

/// The byte that was stored in a row of this kind is what the byte differs by from what
/// its neighbours suggest: nothing, the left one, the one above, the mean of the two
/// rounded down, or the best guess of three.
pub open spec fn stored_as(kind: u8, stored: u8, byte: u8, left: u8, above: u8, corner: u8) -> bool {
    ||| kind == 0 && byte == stored
    ||| kind == 1 && (byte - stored - left) % 256 == 0
    ||| kind == 2 && (byte - stored - above) % 256 == 0
    ||| kind == 3 && (byte - stored - (left + above) / 2) % 256 == 0
    ||| kind == 4 && exists|guess: int| #[trigger]
        best_guess(guess, left as int, above as int, corner as int) && (byte - stored - guess) % 256 == 0
}

/// The byte `pixel` bytes in front of the one at `index`, or zero where the row does not
/// reach that far back.
pub open spec fn in_front(row: Seq<u8>, index: int, pixel: int) -> u8 {
    if index < pixel {
        0
    } else {
        row[index - pixel]
    }
}

/// The rows are those that were stored, each behind a byte for its kind, where the row
/// above the first is `above`.
pub open spec fn rows_stored(content: Seq<u8>, above: Seq<u8>, rows: Seq<u8>, pixel: int, length: int) -> bool
    decreases content.len(),
{
    if content.len() == 0 || length < 0 {
        rows.len() == 0
    } else {
        &&& content.len() >= length + 1
        &&& rows.len() >= length
        &&& forall|i: int|
            0 <= i < length ==> stored_as(
                content[0],
                content[i + 1],
                #[trigger] rows[i],
                in_front(rows, i, pixel),
                above[i],
                in_front(above, i, pixel),
            )
        &&& rows_stored(content.skip(length + 1), rows.take(length), rows.skip(length), pixel, length)
    }
}

proof fn lemma_row(kind: u8, stored: Seq<u8>, above: Seq<u8>, pixel: int, index: int)
    requires
        0 <= index < stored.len(),
        stored.len() <= above.len(),
        pixel > 0,
        kind <= 4,
    ensures
        row_of(kind, stored, above, pixel).len() == stored.len(),
        stored_as(
            kind,
            stored[index],
            row_of(kind, stored, above, pixel)[index],
            in_front(row_of(kind, stored, above, pixel), index, pixel),
            above[index],
            in_front(above, index, pixel),
        ),
    decreases stored.len(),
{
    let shorter = stored.drop_last();
    let front = row_of(kind, shorter, above, pixel);
    let row = row_of(kind, stored, above, pixel);
    lemma_row_length(kind, shorter, above, pixel);
    assert(forall|i: int| 0 <= i < front.len() ==> #[trigger] row[i] == front[i]);
    if index < shorter.len() {
        lemma_row(kind, shorter, above, pixel, index);
        assert(shorter[index] == stored[index]);
        assert(in_front(row, index, pixel) == in_front(front, index, pixel));
    } else {
        let left = byte_before(front, index, pixel);
        assert(left == in_front(row, index, pixel));
        let corner = byte_before(above, index, pixel);
        let guess = nearest(left as int, above[index] as int, corner as int);
        assert(best_guess(guess, left as int, above[index] as int, corner as int));
        assert(row[index] == next_byte(kind, stored[index], front, above, pixel));
        let sum = stored[index] + prediction(kind, left, above[index], corner);
        assert(row[index] == sum % 256);
        assert((sum % 256 - sum) % 256 == 0);
    }
}

proof fn lemma_row_length(kind: u8, stored: Seq<u8>, above: Seq<u8>, pixel: int)
    ensures
        row_of(kind, stored, above, pixel).len() == stored.len(),
    decreases stored.len(),
{
    if stored.len() > 0 {
        lemma_row_length(kind, stored.drop_last(), above, pixel);
    }
}

proof fn lemma_rows_shift(content: Seq<u8>, shift: int, position: int, above: Seq<u8>, layout: Layout)
    requires
        0 <= shift,
        0 <= position,
        shift + position <= content.len(),
    ensures
        rows_from(content, shift + position, above, layout) == rows_from(content.skip(shift), position, above, layout),
    decreases content.len() - shift - position,
{
    let t = content.skip(shift);
    if position < t.len() && layout.row >= 0 {
        assert(t[position] == content[shift + position]);
        if position + 1 + layout.row <= t.len() {
            assert(t.subrange(position + 1, position + 1 + layout.row) =~= content.subrange(
                shift + position + 1,
                shift + position + 1 + layout.row,
            ));
            let row = row_of(
                t[position],
                t.subrange(position + 1, position + 1 + layout.row),
                above,
                layout.pixel,
            );
            lemma_rows_shift(content, shift, position + 1 + layout.row, row, layout);
        }
    }
}

proof fn lemma_rows(content: Seq<u8>, above: Seq<u8>, layout: Layout)
    requires
        layout.row >= 0,
        layout.pixel > 0,
        above.len() == layout.row,
    ensures
        rows_from(content, 0, above, layout) matches Ok(rows) ==> rows_stored(
            content,
            above,
            rows,
            layout.pixel,
            layout.row,
        ),
    decreases content.len(),
{
    if let Ok(rows) = rows_from(content, 0, above, layout) {
        if content.len() > 0 {
            let stored = content.subrange(1, 1 + layout.row);
            let row = row_of(content[0], stored, above, layout.pixel);
            let rest = content.skip(layout.row + 1);
            lemma_row_length(content[0], stored, above, layout.pixel);
            lemma_rows_shift(content, layout.row + 1, 0, row, layout);
            lemma_rows(rest, row, layout);
            let further = rows_from(rest, 0, row, layout)->Ok_0;
            assert(rows == row + further);
            assert(rows.take(layout.row) =~= row);
            assert(rows.skip(layout.row) =~= further);
            assert forall|i: int| 0 <= i < layout.row implies stored_as(
                content[0],
                content[i + 1],
                #[trigger] rows[i],
                in_front(rows, i, layout.pixel),
                above[i],
                in_front(above, i, layout.pixel),
            ) by {
                lemma_row(content[0], stored, above, layout.pixel, i);
                assert(stored[i] == content[i + 1]);
                assert(rows[i] == row[i]);
                assert(in_front(rows, i, layout.pixel) == in_front(row, i, layout.pixel));
            }
        }
    }
}

/// The number that the parameters have for a key.
pub open spec fn number_for(parameters: DictionaryView, key: Seq<u8>, default: int) -> int {
    match dict_get(parameters, key) {
        Some(ObjectView::Integer(value)) => value as int,
        _ => default,
    }
}

/// A predictor that goes by rows gives back the rows that were stored: as many bytes a
/// row as its columns take, and of each byte what is stored and what its neighbours
/// suggest. The neighbour to the left is that of the pixel before, and a row above the
/// first is all zero.
pub proof fn law_predicted_rows_are_given_back(parameters: DictionaryView, content: Seq<u8>, rows: Seq<u8>)
    requires
        10 <= number_for(
            parameters,
            seq![0x50u8, 0x72, 0x65, 0x64, 0x69, 0x63, 0x74, 0x6f, 0x72],
            1,
        ) <= 15,
        restored(Some(ObjectView::Dictionary(parameters)), content) == Ok::<Seq<u8>, Error>(rows),
    ensures
        ({
            let columns = number_for(parameters, seq![0x43u8, 0x6f, 0x6c, 0x75, 0x6d, 0x6e, 0x73], 1);
            let colors = number_for(parameters, seq![0x43u8, 0x6f, 0x6c, 0x6f, 0x72, 0x73], 1);
            let bits = number_for(
                parameters,
                seq![
                    0x42u8,
                    0x69,
                    0x74,
                    0x73,
                    0x50,
                    0x65,
                    0x72,
                    0x43,
                    0x6f,
                    0x6d,
                    0x70,
                    0x6f,
                    0x6e,
                    0x65,
                    0x6e,
                    0x74,
                ],
                8,
            );
            let length = (columns * (colors * bits) + 7) / 8;
            let pixel = (colors * bits + 7) / 8;
            rows_stored(content, Seq::new(length as nat, |i: int| 0u8), rows, pixel, length)
        }),
{
    let predictor_key = seq![0x50u8, 0x72, 0x65, 0x64, 0x69, 0x63, 0x74, 0x6f, 0x72];
    let columns_key = seq![0x43u8, 0x6f, 0x6c, 0x75, 0x6d, 0x6e, 0x73];
    let colors_key = seq![0x43u8, 0x6f, 0x6c, 0x6f, 0x72, 0x73];
    let bits_key = seq![
        0x42u8,
        0x69,
        0x74,
        0x73,
        0x50,
        0x65,
        0x72,
        0x43,
        0x6f,
        0x6d,
        0x70,
        0x6f,
        0x6e,
        0x65,
        0x6e,
        0x74,
    ];
    assert(KEY_PREDICTOR@ =~= predictor_key);
    assert(KEY_COLUMNS@ =~= columns_key);
    assert(KEY_COLORS@ =~= colors_key);
    assert(KEY_BITS_PER_COMPONENT@ =~= bits_key);
    let layout = layout_of(parameters)->Some_0;
    let columns = number_for(parameters, columns_key, 1);
    let colors = number_for(parameters, colors_key, 1);
    let bits = number_for(parameters, bits_key, 8);
    assert(colors * bits >= 1) by (nonlinear_arith)
        requires
            colors >= 1,
            bits >= 1,
    ;
    assert(columns * (colors * bits) >= 1) by (nonlinear_arith)
        requires
            columns >= 1,
            colors * bits >= 1,
    ;
    lemma_rows(content, Seq::new(layout.row as nat, |i: int| 0u8), layout);
}

/// Parameters that ask for no predictor leave the content as it is.
pub proof fn law_no_predictor_changes_nothing(parameters: DictionaryView, content: Seq<u8>)
    requires
        number_for(parameters, seq![0x50u8, 0x72, 0x65, 0x64, 0x69, 0x63, 0x74, 0x6f, 0x72], 1) <= 1,
    ensures
        restored(Some(ObjectView::Dictionary(parameters)), content) == Ok::<Seq<u8>, Error>(content),
        restored(None, content) == Ok::<Seq<u8>, Error>(content),
{
    assert(KEY_PREDICTOR@ =~= seq![0x50u8, 0x72, 0x65, 0x64, 0x69, 0x63, 0x74, 0x6f, 0x72]);
}

} // verus!
