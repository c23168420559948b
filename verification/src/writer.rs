//! Writing objects as text.

use vstd::prelude::*;

use crate::lex::{
    delimiter, is_pdf_delimiter, BACKSLASH, BRACKET_CLOSE, BRACKET_OPEN, CR, GREATER, HASH, KEYWORD_ENDSTREAM,
    KEYWORD_FALSE, KEYWORD_NULL, KEYWORD_STREAM, KEYWORD_TRUE, LESS, LETTER_R, LF, MINUS, PAREN_CLOSE, PAREN_OPEN, SLASH,
    SPACE,
};
use crate::object::{
    array_view, lemma_array_view, Dictionary, DictionaryView, Object, ObjectView, StringFormat,
};

verus! {

/// The digit that a number below sixteen is written as.
pub open spec fn hex_digit_of(value: int) -> u8 {
    if value < 10 {
        (0x30 + value) as u8
    } else {
        (0x41 + value - 10) as u8
    }
}

/// The decimal digits of a number.
pub open spec fn decimal_text(value: nat) -> Seq<u8>
    decreases value,
{
    if value < 10 {
        seq![(0x30 + value) as u8]
    } else {
        decimal_text(value / 10).push((0x30 + value % 10) as u8)
    }
}

/// An integer as text.
pub open spec fn integer_text_of(value: i64) -> Seq<u8> {
    if value < 0 {
        seq![MINUS] + decimal_text((-value) as nat)
    } else {
        decimal_text(value as nat)
    }
}

/// The byte stands for itself in a name.
pub open spec fn plain_in_name(byte: u8) -> bool {
    0x21 <= byte <= 0x7e && !delimiter(byte) && byte != HASH
}

/// A byte of a name as text.
pub open spec fn name_byte(byte: u8) -> Seq<u8> {
    if plain_in_name(byte) {
        seq![byte]
    } else {
        seq![HASH, hex_digit_of(byte as int / 16), hex_digit_of(byte as int % 16)]
    }
}

/// The bytes of a name as text.
pub open spec fn name_bytes(name: Seq<u8>) -> Seq<u8>
    decreases name.len(),
{
    if name.len() == 0 {
        Seq::empty()
    } else {
        name_bytes(name.drop_last()) + name_byte(name.last())
    }
}

/// A name as text.
pub open spec fn name_text(name: Seq<u8>) -> Seq<u8> {
    seq![SLASH] + name_bytes(name)
}

/// The parentheses that are open behind the first `length` bytes.
pub open spec fn open_parens(text: Seq<u8>, length: int) -> Seq<int>
    decreases length,
{
    if length <= 0 {
        Seq::empty()
    } else {
        let before = open_parens(text, length - 1);
        if text[length - 1] == PAREN_OPEN {
            before.push(length - 1)
        } else if text[length - 1] == PAREN_CLOSE && before.len() > 0 {
            before.drop_last()
        } else {
            before
        }
    }
}

/// The byte at `index` has to be escaped in a literal string: backslashes,
/// carriage returns and parentheses without a counterpart.
pub open spec fn escaped(text: Seq<u8>, index: int) -> bool {
    ||| text[index] == BACKSLASH
    ||| text[index] == CR
    ||| text[index] == PAREN_CLOSE && open_parens(text, index).len() == 0
    ||| text[index] == PAREN_OPEN && open_parens(text, text.len() as int).contains(index)
}

/// A byte of a literal string as text.
pub open spec fn literal_byte(text: Seq<u8>, index: int) -> Seq<u8> {
    if escaped(text, index) {
        seq![
            BACKSLASH,
            if text[index] == CR {
                0x72
            } else {
                text[index]
            },
        ]
    } else {
        seq![text[index]]
    }
}

/// The first `length` bytes of a literal string as text.
pub open spec fn literal_bytes(text: Seq<u8>, length: int) -> Seq<u8>
    decreases length,
{
    if length <= 0 {
        Seq::empty()
    } else {
        literal_bytes(text, length - 1) + literal_byte(text, length - 1)
    }
}

/// The bytes of a hexadecimal string as text.
pub open spec fn hex_bytes(text: Seq<u8>) -> Seq<u8>
    decreases text.len(),
{
    if text.len() == 0 {
        Seq::empty()
    } else {
        hex_bytes(text.drop_last()).push(hex_digit_of(text.last() as int / 16)).push(
            hex_digit_of(text.last() as int % 16),
        )
    }
}

/// A string as text.
pub open spec fn string_text(text: Seq<u8>, format: StringFormat) -> Seq<u8> {
    match format {
        StringFormat::Literal => seq![PAREN_OPEN] + literal_bytes(text, text.len() as int) + seq![PAREN_CLOSE],
        StringFormat::Hexadecimal => seq![LESS] + hex_bytes(text) + seq![GREATER],
    }
}

/// The object's text could run into what stands before it.
pub open spec fn needs_separator(object: ObjectView) -> bool {
    match object {
        ObjectView::Null => true,
        ObjectView::Boolean(_) => true,
        ObjectView::Integer(_) => true,
        ObjectView::Real(_) => true,
        ObjectView::Reference(_) => true,
        _ => false,
    }
}

/// A space where the object's text needs one before it.
pub open spec fn separator(object: ObjectView) -> Seq<u8> {
    if needs_separator(object) {
        seq![SPACE]
    } else {
        Seq::empty()
    }
}

/// An object as text.
pub open spec fn object_text(object: ObjectView) -> Seq<u8>
    decreases object,
{
    match object {
        ObjectView::Null => KEYWORD_NULL@,
        ObjectView::Boolean(value) => if value {
            KEYWORD_TRUE@
        } else {
            KEYWORD_FALSE@
        },
        ObjectView::Integer(value) => integer_text_of(value),
        ObjectView::Real(text) => text,
        ObjectView::Name(name) => name_text(name),
        ObjectView::String(text, format) => string_text(text, format),
        ObjectView::Array(items) => seq![BRACKET_OPEN] + items_text(items) + seq![BRACKET_CLOSE],
        ObjectView::Dictionary(dict) => seq![LESS, LESS] + entries_text(dict) + seq![GREATER, GREATER],
        ObjectView::Stream(dict, content, _) => seq![LESS, LESS] + entries_text(dict) + seq![GREATER, GREATER]
            + KEYWORD_STREAM@ + seq![LF] + content + seq![LF] + KEYWORD_ENDSTREAM@,
        ObjectView::Reference(id) => decimal_text(id.0 as nat) + seq![SPACE] + decimal_text(id.1 as nat) + seq![
            SPACE,
            LETTER_R,
        ],
    }
}

/// The items of an array as text.
pub open spec fn items_text(items: Seq<ObjectView>) -> Seq<u8>
    decreases items,
{
    if items.len() == 0 {
        Seq::empty()
    } else {
        let last = items[items.len() - 1];
        items_text(items.drop_last()) + (if items.len() == 1 {
            Seq::empty()
        } else {
            separator(last)
        }) + object_text(last)
    }
}

/// The entries of a dictionary as text.
pub open spec fn entries_text(dict: DictionaryView) -> Seq<u8>
    decreases dict,
{
    if dict.len() == 0 {
        Seq::empty()
    } else {
        let last = dict[dict.len() - 1];
        entries_text(dict.drop_last()) + name_text(last.0) + separator(last.1) + object_text(last.1)
    }
}

/// Appends bytes.
pub(crate) fn write_bytes(output: &mut Vec<u8>, bytes: &[u8])
    ensures
        final(output)@ == old(output)@ + bytes@,
{
    let mut index: usize = 0;
    assert(old(output)@ + bytes@.take(0) =~= old(output)@);
    while index < bytes.len()
        invariant
            index <= bytes@.len(),
            output@ == old(output)@ + bytes@.take(index as int),
        decreases bytes@.len() - index,
    {
        output.push(bytes[index]);
        assert(output@ =~= old(output)@ + bytes@.take(index + 1));
        index += 1;
    }
    assert(bytes@.take(bytes@.len() as int) =~= bytes@);
}

/// Appends the decimal digits of a number.
fn write_decimal(output: &mut Vec<u8>, value: u64)
    ensures
        final(output)@ == old(output)@ + decimal_text(value as nat),
    decreases value,
{
    if value >= 10 {
        write_decimal(output, value / 10);
    }
    output.push(0x30 + (value % 10) as u8);
    assert(output@ =~= old(output)@ + decimal_text(value as nat));
}

fn write_integer(output: &mut Vec<u8>, value: i64)
    ensures
        final(output)@ == old(output)@ + integer_text_of(value),
{
    if value < 0 {
        output.push(MINUS);
        let magnitude: u64 = if value == i64::MIN {
            0x8000_0000_0000_0000
        } else {
            (-value) as u64
        };
        write_decimal(output, magnitude);
    } else {
        write_decimal(output, value as u64);
    }
    assert(output@ =~= old(output)@ + integer_text_of(value));
}

fn hex_digit_for(value: u8) -> (r: u8)
    requires
        value < 16,
    ensures
        r == hex_digit_of(value as int),
{
    if value < 10 {
        0x30 + value
    } else {
        0x41 + (value - 10)
    }
}

fn write_name(output: &mut Vec<u8>, name: &Vec<u8>)
    ensures
        final(output)@ == old(output)@ + name_text(name@),
{
    output.push(SLASH);
    let mut index: usize = 0;
    assert(output@ =~= old(output)@ + seq![SLASH] + name_bytes(name@.take(0)));
    while index < name.len()
        invariant
            index <= name@.len(),
            output@ == old(output)@ + seq![SLASH] + name_bytes(name@.take(index as int)),
        decreases name@.len() - index,
    {
        let byte: u8 = name[index];
        if byte >= 0x21 && byte <= 0x7e && !is_pdf_delimiter(byte) && byte != HASH {
            output.push(byte);
        } else {
            output.push(HASH);
            output.push(hex_digit_for(byte / 16));
            output.push(hex_digit_for(byte % 16));
        }
        proof {
            let longer = name@.take(index + 1);
            assert(longer.drop_last() =~= name@.take(index as int));
            assert(longer.last() == byte);
            assert(output@ =~= old(output)@ + seq![SLASH] + name_bytes(longer));
        }
        index += 1;
    }
    assert(name@.take(name@.len() as int) =~= name@);
    assert(output@ =~= old(output)@ + name_text(name@));
}

/// Which bytes of a literal string have to be escaped.
fn escapes(text: &Vec<u8>) -> (marks: Vec<bool>)
    ensures
        marks@.len() == text@.len(),
        forall|i: int| 0 <= i < marks@.len() ==> #[trigger] marks@[i] == escaped(text@, i),
{
    let length: usize = text.len();
    let mut marks: Vec<bool> = Vec::new();
    let mut open: Vec<usize> = Vec::new();
    let mut index: usize = 0;
    while index < length
        invariant
            index <= length == text@.len(),
            marks@.len() == index,
            open@.len() == open_parens(text@, index as int).len(),
            forall|i: int| 0 <= i < open@.len() ==> #[trigger] open@[i] == open_parens(text@, index as int)[i],
            forall|i: int| 0 <= i < open@.len() ==> 0 <= #[trigger] open@[i] < index && text@[open@[i] as int] == PAREN_OPEN,
            forall|i: int|
                0 <= i < index ==> #[trigger] marks@[i] == (escaped(text@, i) && text@[i] != PAREN_OPEN),
        decreases length - index,
    {
        let byte: u8 = text[index];
        let mut mark: bool = false;
        if byte == PAREN_OPEN {
            open.push(index);
        } else if byte == PAREN_CLOSE {
            if open.len() > 0 {
                open.pop();
            } else {
                mark = true;
            }
        } else if byte == BACKSLASH || byte == CR {
            mark = true;
        }
        marks.push(mark);
        index += 1;
    }
    let ghost before = marks@;
    let ghost parens = open_parens(text@, length as int);
    let mut next: usize = 0;
    while next < open.len()
        invariant
            next <= open@.len(),
            marks@.len() == length == text@.len(),
            before.len() == length,
            parens == open_parens(text@, length as int),
            open@.len() == parens.len(),
            forall|i: int| 0 <= i < open@.len() ==> #[trigger] open@[i] == parens[i],
            forall|i: int| 0 <= i < open@.len() ==> 0 <= #[trigger] open@[i] < length && text@[open@[i] as int] == PAREN_OPEN,
            forall|i: int|
                0 <= i < length ==> #[trigger] before[i] == (escaped(text@, i) && text@[i] != PAREN_OPEN),
            forall|i: int|
                0 <= i < length ==> #[trigger] marks@[i] == (before[i] || parens.take(next as int).contains(i)),
        decreases open@.len() - next,
    {
        let at: usize = open[next];
        marks.set(at, true);
        proof {
            let longer = parens.take(next + 1);
            assert forall|i: int| 0 <= i < length implies #[trigger] marks@[i] == (before[i] || longer.contains(i)) by {
                if parens.take(next as int).contains(i) {
                    let k = choose|k: int| 0 <= k < next && parens.take(next as int)[k] == i;
                    assert(longer[k] == i);
                }
                if longer.contains(i) && i != at {
                    let k = choose|k: int| 0 <= k < longer.len() && longer[k] == i;
                    assert(parens.take(next as int)[k] == i);
                }
                if i == at {
                    assert(longer[next as int] == i);
                }
            }
        }
        next += 1;
    }
    proof {
        assert(parens.take(parens.len() as int) =~= parens);
        assert forall|i: int| 0 <= i < marks@.len() implies #[trigger] marks@[i] == escaped(text@, i) by {
            if parens.contains(i) {
                let k = choose|k: int| 0 <= k < parens.len() && parens[k] == i;
                assert(open@[k] == i);
            }
        }
    }
    marks
}

fn write_string(output: &mut Vec<u8>, text: &Vec<u8>, format: StringFormat)
    ensures
        final(output)@ == old(output)@ + string_text(text@, format),
{
    match format {
        StringFormat::Literal => {
            let marks: Vec<bool> = escapes(text);
            output.push(PAREN_OPEN);
            let mut index: usize = 0;
            assert(output@ =~= old(output)@ + seq![PAREN_OPEN] + literal_bytes(text@, 0));
            while index < text.len()
                invariant
                    index <= text@.len() == marks@.len(),
                    forall|i: int| 0 <= i < marks@.len() ==> #[trigger] marks@[i] == escaped(text@, i),
                    output@ == old(output)@ + seq![PAREN_OPEN] + literal_bytes(text@, index as int),
                decreases text@.len() - index,
            {
                let byte: u8 = text[index];
                if marks[index] {
                    output.push(BACKSLASH);
                    output.push(
                        if byte == CR {
                            0x72
                        } else {
                            byte
                        },
                    );
                } else {
                    output.push(byte);
                }
                assert(output@ =~= old(output)@ + seq![PAREN_OPEN] + literal_bytes(text@, index + 1));
                index += 1;
            }
            output.push(PAREN_CLOSE);
            assert(output@ =~= old(output)@ + string_text(text@, format));
        },
        StringFormat::Hexadecimal => {
            output.push(LESS);
            let mut index: usize = 0;
            assert(output@ =~= old(output)@ + seq![LESS] + hex_bytes(text@.take(0)));
            while index < text.len()
                invariant
                    index <= text@.len(),
                    output@ == old(output)@ + seq![LESS] + hex_bytes(text@.take(index as int)),
                decreases text@.len() - index,
            {
                let byte: u8 = text[index];
                output.push(hex_digit_for(byte / 16));
                output.push(hex_digit_for(byte % 16));
                proof {
                    let longer = text@.take(index + 1);
                    assert(longer.drop_last() =~= text@.take(index as int));
                    assert(longer.last() == byte);
                    assert(output@ =~= old(output)@ + seq![LESS] + hex_bytes(longer));
                }
                index += 1;
            }
            output.push(GREATER);
            assert(text@.take(text@.len() as int) =~= text@);
            assert(output@ =~= old(output)@ + string_text(text@, format));
        },
    }
}

fn write_separator(output: &mut Vec<u8>, object: &Object)
    ensures
        final(output)@ == old(output)@ + separator(object@),
{
    let needed: bool = matches!(
        object,
        Object::Null | Object::Boolean(_) | Object::Integer(_) | Object::Real(_) | Object::Reference(_)
    );
    if needed {
        output.push(SPACE);
    }
    assert(output@ =~= old(output)@ + separator(object@));
}

/// Appends an object as text.
pub fn write_object(output: &mut Vec<u8>, object: &Object)
    ensures
        final(output)@ == old(output)@ + object_text(object@),
    decreases object, 1int,
{
    match object {
        Object::Null => write_bytes(output, &KEYWORD_NULL),
        Object::Boolean(value) => if *value {
            write_bytes(output, &KEYWORD_TRUE)
        } else {
            write_bytes(output, &KEYWORD_FALSE)
        },
        Object::Integer(value) => write_integer(output, *value),
        Object::Real(text) => write_bytes(output, text.as_slice()),
        Object::Name(name) => write_name(output, name),
        Object::String(text, format) => write_string(output, text, *format),
        Object::Array(items) => {
            proof {
                lemma_array_view(*items);
            }
            let ghost shown = array_view(items@);
            output.push(BRACKET_OPEN);
            let mut index: usize = 0;
            assert(output@ =~= old(output)@ + seq![BRACKET_OPEN] + items_text(shown.take(0)));
            while index < items.len()
                invariant
                    index <= items@.len(),
                    shown == array_view(items@),
                    output@ == old(output)@ + seq![BRACKET_OPEN] + items_text(shown.take(index as int)),
                    decreases_to!(object => items),
                decreases items@.len() - index,
            {
                if index > 0 {
                    write_separator(output, &items[index]);
                }
                write_object(output, &items[index]);
                proof {
                    let longer = shown.take(index + 1);
                    assert(longer.drop_last() =~= shown.take(index as int));
                    assert(longer[index as int] == items@[index as int]@);
                    assert(output@ =~= old(output)@ + seq![BRACKET_OPEN] + items_text(longer));
                }
                index += 1;
            }
            output.push(BRACKET_CLOSE);
            assert(shown.take(shown.len() as int) =~= shown);
            assert(output@ =~= old(output)@ + object_text(object@));
        },
        Object::Dictionary(dict) => {
            write_dictionary(output, dict);
            assert(output@ =~= old(output)@ + object_text(object@));
        },
        Object::Stream(stream) => {
            write_dictionary(output, &stream.dict);
            write_bytes(output, &KEYWORD_STREAM);
            output.push(LF);
            write_bytes(output, stream.content.as_slice());
            output.push(LF);
            write_bytes(output, &KEYWORD_ENDSTREAM);
            assert(output@ =~= old(output)@ + object_text(object@));
        },
        Object::Reference(id) => {
            write_decimal(output, id.0 as u64);
            output.push(SPACE);
            write_decimal(output, id.1 as u64);
            output.push(SPACE);
            output.push(LETTER_R);
            assert(output@ =~= old(output)@ + object_text(object@));
        },
    }
}

fn write_dictionary(output: &mut Vec<u8>, dict: &Dictionary)
    ensures
        final(output)@ == old(output)@ + seq![LESS, LESS] + entries_text(dict@) + seq![GREATER, GREATER],
    decreases dict, 0int,
{
    output.push(LESS);
    output.push(LESS);
    let mut index: usize = 0;
    assert(output@ =~= old(output)@ + seq![LESS, LESS] + entries_text(dict@.take(0)));
    while index < dict.entries.len()
        invariant
            index <= dict.entries@.len() == dict@.len(),
            output@ == old(output)@ + seq![LESS, LESS] + entries_text(dict@.take(index as int)),
        decreases dict.entries@.len() - index,
    {
        write_name(output, &dict.entries[index].0);
        write_separator(output, &dict.entries[index].1);
        write_object(output, &dict.entries[index].1);
        proof {
            let longer = dict@.take(index + 1);
            assert(longer.drop_last() =~= dict@.take(index as int));
            assert(longer[index as int] == (dict.entries@[index as int].0@, dict.entries@[index as int].1@));
            assert(output@ =~= old(output)@ + seq![LESS, LESS] + entries_text(longer));
        }
        index += 1;
    }
    output.push(GREATER);
    output.push(GREATER);
    assert(dict@.take(dict@.len() as int) =~= dict@);
    assert(output@ =~= old(output)@ + seq![LESS, LESS] + entries_text(dict@) + seq![GREATER, GREATER]);
}

} // verus!
