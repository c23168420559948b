//! Which bytes of an object stream are which member.

use vstd::prelude::*;
use vstd::utf8::{pop_first_scalar, valid_first_scalar, valid_utf8};

use crate::errors::Error;
use crate::laws::syntax::{
    law_written_number_is_read_back, law_written_object_is_read_back, readable,
};
use crate::lex::{digit, occurs_at, SPACE};
use crate::object::ObjectView;
use crate::object_stream::{
    blanks_end, member_bytes, member_in, next_offset, word_end, word_number, words_from,
};
use crate::writer::{decimal_text, object_text};

verus! {

/// The members that a stream's header lists: the number of each and where it starts.
pub type Listed = Seq<(u32, usize)>;

/// The header of an object stream: of each member its number and its offset, with a
/// space behind each.
pub open spec fn header_text(members: Listed) -> Seq<u8>
    decreases members.len(),
{
    if members.len() == 0 {
        Seq::empty()
    } else {
        decimal_text(members[0].0 as nat) + seq![0x20u8] + decimal_text(members[0].1 as nat) + seq![0x20u8]
            + header_text(members.skip(1))
    }
}

proof fn lemma_header_length(members: Listed)
    ensures
        header_text(members).len() >= 2 * members.len(),
    decreases members.len(),
{
    if members.len() > 0 {
        lemma_header_length(members.skip(1));
    }
}

/// Bytes below 0x80 are valid text.
proof fn lemma_ascii(bytes: Seq<u8>)
    requires
        forall|i: int| 0 <= i < bytes.len() ==> #[trigger] bytes[i] < 0x80,
    ensures
        valid_utf8(bytes),
    decreases bytes.len(),
{
    if bytes.len() > 0 {
        let first = bytes[0];
        assert(first < 0x80);
        assert(first & 0x80 == 0) by (bit_vector)
            requires
                first < 0x80,
        ;
        assert((first & 0x7f) <= 0x7f) by (bit_vector);
        assert(valid_first_scalar(bytes));
        assert(pop_first_scalar(bytes) =~= bytes.skip(1));
        let rest = bytes.skip(1);
        assert forall|i: int| 0 <= i < rest.len() implies #[trigger] rest[i] < 0x80 by {
            assert(bytes[i + 1] < 0x80);
        }
        lemma_ascii(rest);
    }
}

proof fn lemma_word_end(s: Seq<u8>, position: int, end: int)
    requires
        0 <= position <= end < s.len(),
        forall|i: int| position <= i < end ==> digit(#[trigger] s[i]),
        s[end] == SPACE,
    ensures
        word_end(s, position) == end,
    decreases end - position,
{
    if position < end {
        assert(digit(s[position]));
        lemma_word_end(s, position + 1, end);
    }
}

/// A number that stands at `at`, in front of a space, is one word.
proof fn lemma_word(s: Seq<u8>, position: int, at: int, value: nat)
    requires
        0 <= position,
        position == at || (position == at - 1 && s[position] == SPACE),
        occurs_at(s, at, decimal_text(value)),
        at + decimal_text(value).len() < s.len(),
        s[at + decimal_text(value).len()] == SPACE,
    ensures
        ({
            let end = at + decimal_text(value).len();
            &&& words_from(s, position) == seq![(at, end)] + words_from(s, end)
            &&& forall|limit: int| value <= limit ==> #[trigger] word_number(s, (at, end), limit) == Some(value as int)
        }),
{
    let text = decimal_text(value);
    let end = at + text.len();
    law_written_number_is_read_back(value);
    assert forall|i: int| at <= i < end implies digit(#[trigger] s[i]) by {
        assert(s.subrange(at, end)[i - at] == text[i - at]);
        assert(digit(text[i - at]));
    }
    assert(digit(s[at]));
    assert(blanks_end(s, at) == at);
    assert(blanks_end(s, position) == at);
    lemma_word_end(s, at, end);
    assert(s.subrange(at, end) =~= text);
}

/// The words of a header are the numbers and the offsets of its members, in turn.
proof fn lemma_header_words(s: Seq<u8>, position: int, at: int, members: Listed)
    requires
        0 <= position,
        position == at || (position == at - 1 && s[position] == SPACE),
        occurs_at(s, at, header_text(members)),
        at + header_text(members).len() == s.len(),
    ensures
        words_from(s, position).len() == 2 * members.len(),
        forall|k: int|
            0 <= k < members.len() ==> word_number(s, words_from(s, position)[2 * k], u32::MAX as int) == Some(
                (#[trigger] members[k]).0 as int,
            ) && word_number(s, words_from(s, position)[2 * k + 1], usize::MAX as int) == Some(members[k].1 as int),
        forall|i: int| at <= i < s.len() ==> #[trigger] s[i] < 0x80,
    decreases members.len(),
{
    if members.len() == 0 {
        if position < s.len() {
            assert(blanks_end(s, position + 1) == position + 1);
            assert(blanks_end(s, position) == position + 1);
        }
        assert(words_from(s, position) =~= Seq::empty());
    } else {
        let number = decimal_text(members[0].0 as nat);
        let offset = decimal_text(members[0].1 as nat);
        let rest = header_text(members.skip(1));
        let whole = header_text(members);
        let second = at + number.len() + 1;
        let third = second + offset.len() + 1;
        let there = s.subrange(at, at + whole.len());
        assert(whole =~= number + seq![0x20u8] + offset + seq![0x20u8] + rest);
        assert(s.subrange(at, at + number.len()) =~= number) by {
            assert forall|i: int| 0 <= i < number.len() implies s[at + i] == number[i] by {
                assert(there[i] == whole[i]);
            }
        }
        assert(s[second - 1] == SPACE) by {
            assert(there[number.len() as int] == whole[number.len() as int]);
        }
        assert(s.subrange(second, second + offset.len()) =~= offset) by {
            assert forall|i: int| 0 <= i < offset.len() implies s[second + i] == offset[i] by {
                assert(there[number.len() + 1 + i] == whole[number.len() + 1 + i]);
            }
        }
        assert(s[third - 1] == SPACE) by {
            let k = number.len() + 1 + offset.len();
            assert(there[k as int] == whole[k as int]);
        }
        assert(s.subrange(third, third + rest.len()) =~= rest) by {
            assert forall|i: int| 0 <= i < rest.len() implies s[third + i] == rest[i] by {
                let k = number.len() + 1 + offset.len() + 1 + i;
                assert(there[k] == whole[k]);
            }
        }
        lemma_word(s, position, at, members[0].0 as nat);
        lemma_word(s, second - 1, second, members[0].1 as nat);
        lemma_header_words(s, third - 1, third, members.skip(1));
        let words = words_from(s, position);
        let further = words_from(s, third - 1);
        assert(words =~= seq![(at, second - 1), (second, third - 1)] + further);
        assert forall|k: int| 0 <= k < members.len() implies word_number(s, words[2 * k], u32::MAX as int) == Some(
            (#[trigger] members[k]).0 as int,
        ) && word_number(s, words[2 * k + 1], usize::MAX as int) == Some(members[k].1 as int) by {
            if k > 0 {
                assert(members.skip(1)[k - 1] == members[k]);
                assert(words[2 * k] == further[2 * (k - 1)]);
                assert(words[2 * k + 1] == further[2 * (k - 1) + 1]);
            }
        }
        law_written_number_is_read_back(members[0].0 as nat);
        law_written_number_is_read_back(members[0].1 as nat);
        assert forall|i: int| at <= i < s.len() implies #[trigger] s[i] < 0x80 by {
            if i < second - 1 {
                assert(s.subrange(at, at + number.len())[i - at] == number[i - at]);
                assert(digit(number[i - at]));
            } else if second <= i < third - 1 {
                assert(s.subrange(second, second + offset.len())[i - second] == offset[i - second]);
                assert(digit(offset[i - second]));
            }
        }
    }
}

/// The smallest offset above another is found among the words of the header.
proof fn lemma_next_offset(
    s: Seq<u8>,
    words: Seq<(int, int)>,
    members: Listed,
    member: int,
    relative: int,
    best: Option<int>,
)
    requires
        words.len() == 2 * members.len(),
        0 <= member <= members.len(),
        forall|k: int|
            0 <= k < members.len() ==> word_number(s, words[2 * k + 1], usize::MAX as int) == Some(
                (#[trigger] members[k]).1 as int,
            ),
        best matches Some(found) ==> found > relative,
    ensures
        match next_offset(s, words, member, relative, best) {
            Some(found) => {
                &&& found > relative
                &&& best == Some(found) || exists|k: int| member <= k < members.len() && (#[trigger] members[k]).1 == found
                &&& best matches Some(other) ==> found <= other
                &&& forall|k: int|
                    member <= k < members.len() && (#[trigger] members[k]).1 > relative ==> found <= members[k].1
            },
            None => best is None && forall|k: int|
                member <= k < members.len() ==> (#[trigger] members[k]).1 <= relative,
        },
    decreases members.len() - member,
{
    if member < members.len() {
        let offset = members[member].1 as int;
        assert(word_number(s, words[2 * member + 1], usize::MAX as int) == Some(offset));
        let next = if offset > relative && (best matches Some(other) ==> offset < other) {
            Some(offset)
        } else {
            best
        };
        lemma_next_offset(s, words, members, member + 1, relative, next);
    }
}

/// The member at an index is the bytes from where the header says that it starts, up to
/// where the next of the others starts, or to the end. It has to be that of the object
/// that is looked for.
pub proof fn law_member_is_what_the_header_lists(
    members: Listed,
    body: Seq<u8>,
    index: u32,
    count: usize,
    end: int,
    other: u32,
)
    requires
        header_text(members).len() <= usize::MAX,
        index < members.len(),
        index < count,
        members[index as int].1 <= end <= body.len(),
        forall|k: int|
            0 <= k < members.len() && (#[trigger] members[k]).1 > members[index as int].1 ==> members[k].1 >= end,
        end == body.len() || exists|k: int|
            0 <= k < members.len() && (#[trigger] members[k]).1 == end && end > members[index as int].1,
    ensures
        member_bytes(
            header_text(members) + body,
            header_text(members).len() as usize,
            count,
            (members[index as int].0, 0u16),
            index,
        ) == Ok::<Seq<u8>, Error>(body.subrange(members[index as int].1 as int, end)),
        other != members[index as int].0 ==> member_bytes(
            header_text(members) + body,
            header_text(members).len() as usize,
            count,
            (other, 0u16),
            index,
        ) is Err,
{
    let header = header_text(members);
    let content = header + body;
    let first = header.len() as usize;
    assert(content.take(first as int) =~= header);
    assert(header.subrange(0, header.len() as int) =~= header);
    lemma_header_words(header, 0, 0, members);
    lemma_ascii(header);
    let words = words_from(header, 0);
    let relative = members[index as int].1 as int;
    assert(word_number(header, words[2 * index as int], u32::MAX as int) == Some(members[index as int].0 as int));
    lemma_next_offset(header, words, members, 0, relative, None);
    let stop = match next_offset(header, words, 0, relative, None) {
        Some(offset) => if first + offset < content.len() {
            first + offset
        } else {
            content.len() as int
        },
        None => content.len() as int,
    };
    assert(stop == first + end);
    assert(content.subrange(first + relative, first + end) =~= body.subrange(relative, end));
}

/// An object that is written into an object stream is read back from it, by its number
/// and its place.
pub proof fn law_written_member_is_read_back(members: Listed, body: Seq<u8>, index: u32, end: int, object: ObjectView)
    requires
        header_text(members).len() <= usize::MAX,
        index < members.len(),
        members[index as int].1 <= end <= body.len(),
        forall|k: int|
            0 <= k < members.len() && (#[trigger] members[k]).1 > members[index as int].1 ==> members[k].1 >= end,
        end == body.len() || exists|k: int|
            0 <= k < members.len() && (#[trigger] members[k]).1 == end && end > members[index as int].1,
        readable(object, 100),
        body.subrange(members[index as int].1 as int, end) == object_text(object) + seq![0x0au8],
    ensures
        member_in(
            header_text(members) + body,
            header_text(members).len() as usize,
            (members[index as int].0, 0u16),
            index,
        ) == Ok::<ObjectView, Error>(object),
{
    lemma_header_length(members);
    law_member_is_what_the_header_lists(members, body, index, usize::MAX, end, 0);
    let bytes = body.subrange(members[index as int].1 as int, end);
    let text = object_text(object);
    assert(bytes.subrange(0, text.len() as int) =~= text);
    assert(bytes[text.len() as int] == 0x0a);
    crate::laws::syntax::lemma_ends_before_line_end(bytes, text.len() as int, object);
    law_written_object_is_read_back(bytes, 0, object);
}

} // verus!
