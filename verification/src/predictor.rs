//! Rows of bytes that were stored as differences from their neighbours.

use vstd::prelude::*;
use vstd::slice::slice_subrange;

use crate::errors::{DecompressError, Error};
use crate::filters::{content_result, KEY_PREDICTOR};
use crate::object::{dict_get, Dictionary, DictionaryView, Object, ObjectView};

verus! {

/// The bytes of `Columns`.
pub const KEY_COLUMNS: [u8; 7] = [0x43, 0x6f, 0x6c, 0x75, 0x6d, 0x6e, 0x73];

/// The bytes of `Colors`.
pub const KEY_COLORS: [u8; 6] = [0x43, 0x6f, 0x6c, 0x6f, 0x72, 0x73];

/// The bytes of `BitsPerComponent`.
pub const KEY_BITS_PER_COMPONENT: [u8; 16] = [
    0x42, 0x69, 0x74, 0x73, 0x50, 0x65, 0x72, 0x43, 0x6f, 0x6d, 0x70, 0x6f, 0x6e, 0x65, 0x6e, 0x74,
];

/// The largest number that a parameter of a predictor may be.
pub const PARAMETER_LIMIT: i64 = 0xf_ffff;

/// The predictor that is asked for; none is the first.
pub open spec fn predictor_of(dict: DictionaryView) -> i64 {
    match dict_get(dict, KEY_PREDICTOR@) {
        Some(ObjectView::Integer(predictor)) => predictor,
        _ => 1,
    }
}

fn read_predictor(dict: &Dictionary) -> (r: i64)
    ensures
        r == predictor_of(dict@),
{
    match dict.get(&KEY_PREDICTOR) {
        Some(Object::Integer(predictor)) => *predictor,
        _ => 1,
    }
}

/// A parameter of a predictor, where it is one that rows can have.
pub open spec fn parameter_of(dict: DictionaryView, key: Seq<u8>, default: i64) -> Option<u64> {
    let value = match dict_get(dict, key) {
        Some(ObjectView::Integer(value)) => value,
        _ => default,
    };
    if 1 <= value <= PARAMETER_LIMIT {
        Some(value as u64)
    } else {
        None
    }
}

fn read_parameter(dict: &Dictionary, key: &[u8], default: i64) -> (r: Option<u64>)
    ensures
        r == parameter_of(dict@, key@, default),
{
    let value: i64 = match dict.get(key) {
        Some(Object::Integer(value)) => *value,
        _ => default,
    };
    if 1 <= value && value <= PARAMETER_LIMIT {
        Some(value as u64)
    } else {
        None
    }
}

/// How the rows are laid out.
pub struct Layout {
    /// How many bytes there are to the same place in the pixel before.
    pub pixel: int,
    /// How many bytes a row has.
    pub row: int,
}

/// How the rows of a picture are laid out.
pub open spec fn layout_of(dict: DictionaryView) -> Option<Layout> {
    match (
        parameter_of(dict, KEY_COLUMNS@, 1),
        parameter_of(dict, KEY_COLORS@, 1),
        parameter_of(dict, KEY_BITS_PER_COMPONENT@, 8),
    ) {
        (Some(columns), Some(colors), Some(bits)) => Some(
            Layout { pixel: (colors * bits + 7) / 8, row: (columns * (colors * bits) + 7) / 8 },
        ),
        _ => None,
    }
}

/// The distance between two numbers.
pub open spec fn distance(one: int, other: int) -> int {
    if one < other {
        other - one
    } else {
        one - other
    }
}

/// The neighbour that is nearest to what the three of them suggest: the one to
/// the left before the one above, and that before the one in the corner.
pub open spec fn nearest(left: int, above: int, corner: int) -> int {
    let guess = left + above - corner;
    if distance(guess, left) <= distance(guess, above) && distance(guess, left) <= distance(guess, corner) {
        left
    } else if distance(guess, above) <= distance(guess, corner) {
        above
    } else {
        corner
    }
}

/// What a byte was stored as a difference from, in a row of this kind.
pub open spec fn prediction(kind: u8, left: u8, above: u8, corner: u8) -> int {
    if kind == 0 {
        0
    } else if kind == 1 {
        left as int
    } else if kind == 2 {
        above as int
    } else if kind == 3 {
        (left + above) / 2
    } else {
        nearest(left as int, above as int, corner as int)
    }
}

/// The byte of a row as far back as one pixel, or zero before the first pixel.
pub open spec fn byte_before(row: Seq<u8>, index: int, pixel: int) -> u8 {
    if index >= pixel {
        row[index - pixel]
    } else {
        0
    }
}

/// A row, from what is stored of it and the row above.
pub open spec fn row_of(kind: u8, stored: Seq<u8>, above: Seq<u8>, pixel: int) -> Seq<u8>
    decreases stored.len(),
{
    if stored.len() == 0 {
        Seq::empty()
    } else {
        let index = stored.len() - 1;
        let row = row_of(kind, stored.drop_last(), above, pixel);
        row.push(next_byte(kind, stored[index], row, above, pixel))
    }
}

/// The next byte of a row, from what is stored of it, the row up to it and the
/// row above.
pub open spec fn next_byte(kind: u8, stored: u8, row: Seq<u8>, above: Seq<u8>, pixel: int) -> u8 {
    let index = row.len() as int;
    ((stored + prediction(
        kind,
        byte_before(row, index, pixel),
        above[index],
        byte_before(above, index, pixel),
    )) % 256) as u8
}

proof fn lemma_next_byte(kind: u8, stored: Seq<u8>, index: int, above: Seq<u8>, pixel: int)
    requires
        0 <= index < stored.len(),
    ensures
        row_of(kind, stored.take(index + 1), above, pixel) == row_of(kind, stored.take(index), above, pixel).push(
            next_byte(kind, stored[index], row_of(kind, stored.take(index), above, pixel), above, pixel),
        ),
{
    assert(stored.take(index + 1).drop_last() =~= stored.take(index));
}

proof fn lemma_row_length(kind: u8, stored: Seq<u8>, above: Seq<u8>, pixel: int)
    ensures
        row_of(kind, stored, above, pixel).len() == stored.len(),
    decreases stored.len(),
{
    if stored.len() > 0 {
        lemma_row_length(kind, stored.drop_last(), above, pixel);
    }
}

/// The rows from `position` on, below the row `above`. Each begins with a byte
/// that says of which kind it is.
pub open spec fn rows_from(content: Seq<u8>, position: int, above: Seq<u8>, layout: Layout) -> Result<Seq<u8>, Error>
    decreases content.len() - position,
{
    if position >= content.len() || layout.row < 0 {
        Ok(Seq::empty())
    } else if content[position] > 4 {
        Err(Error::Decompress(DecompressError::Predictor("a row is of an unknown kind")))
    } else if position + 1 + layout.row > content.len() {
        Err(Error::Decompress(DecompressError::Predictor("a row is cut short")))
    } else {
        let row = row_of(
            content[position],
            content.subrange(position + 1, position + 1 + layout.row),
            above,
            layout.pixel,
        );
        match rows_from(content, position + 1 + layout.row, row, layout) {
            Ok(rest) => Ok(row + rest),
            Err(error) => Err(error),
        }
    }
}

/// The content with what its decode parameters ask for undone.
pub open spec fn restored(parameters: Option<ObjectView>, content: Seq<u8>) -> Result<Seq<u8>, Error> {
    match parameters {
        None => Ok(content),
        Some(ObjectView::Null) => Ok(content),
        Some(ObjectView::Dictionary(dict)) => if predictor_of(dict) <= 1 {
            Ok(content)
        } else if 10 <= predictor_of(dict) <= 15 {
            match layout_of(dict) {
                Some(layout) => rows_from(content, 0, Seq::new(layout.row as nat, |i: int| 0u8), layout),
                None => Err(Error::Decompress(DecompressError::Predictor("a parameter is out of range"))),
            }
        } else {
            Err(Error::Decompress(DecompressError::Predictor("the predictor is not known")))
        },
        Some(_) => Err(Error::Decompress(DecompressError::Predictor("the parameters are not a dictionary"))),
    }
}

fn distance_between(one: i32, other: i32) -> (r: i32)
    requires
        -1000 <= one <= 1000,
        -1000 <= other <= 1000,
    ensures
        r == distance(one as int, other as int),
{
    if one < other {
        other - one
    } else {
        one - other
    }
}

/// What a byte was stored as a difference from, in a row of this kind.
pub fn predicted(kind: u8, left: u8, above: u8, corner: u8) -> (r: u8)
    ensures
        r == prediction(kind, left, above, corner),
{
    if kind == 0 {
        0
    } else if kind == 1 {
        left
    } else if kind == 2 {
        above
    } else if kind == 3 {
        ((left as u16 + above as u16) / 2) as u8
    } else {
        let guess: i32 = left as i32 + above as i32 - corner as i32;
        let to_left: i32 = distance_between(guess, left as i32);
        let to_above: i32 = distance_between(guess, above as i32);
        let to_corner: i32 = distance_between(guess, corner as i32);
        if to_left <= to_above && to_left <= to_corner {
            left
        } else if to_above <= to_corner {
            above
        } else {
            corner
        }
    }
}

/// The row above the one that begins at `base`.
spec fn row_above(output: Seq<u8>, base: int, row: int, first: bool) -> Seq<u8> {
    if first {
        Seq::new(row as nat, |i: int| 0u8)
    } else {
        output.subrange(base - row, base)
    }
}

/// The next byte of a row that begins at `base`.
fn restore_next(output: &Vec<u8>, kind: u8, stored: u8, base: usize, row: usize, pixel: usize, first: bool) -> (r: u8)
    requires
        base <= output@.len() < base + row,
        !first ==> row <= base,
        pixel > 0,
    ensures
        r == next_byte(
            kind,
            stored,
            output@.skip(base as int),
            row_above(output@, base as int, row as int, first),
            pixel as int,
        ),
{
    let index: usize = output.len() - base;
    let left: u8 = if index >= pixel {
        output[base + (index - pixel)]
    } else {
        0
    };
    let above: u8 = if first {
        0
    } else {
        output[base - row + index]
    };
    let corner: u8 = if first || index < pixel {
        0
    } else {
        output[base - row + (index - pixel)]
    };
    stored.wrapping_add(predicted(kind, left, above, corner))
}

/// Appends a row to the rows above it.
fn restore_row(output: &mut Vec<u8>, kind: u8, stored: &[u8], row: usize, pixel: usize, first: bool)
    requires
        stored@.len() == row,
        pixel > 0,
        !first ==> row <= old(output)@.len(),
        old(output)@.len() + row <= usize::MAX,
    ensures
        final(output)@ == old(output)@ + row_of(
            kind,
            stored@,
            row_above(old(output)@, old(output)@.len() as int, row as int, first),
            pixel as int,
        ),
{
    let base: usize = output.len();
    let ghost before = output@;
    let ghost above = row_above(before, base as int, row as int, first);
    let mut index: usize = 0;
    assert(output@ =~= before + row_of(kind, stored@.take(0), above, pixel as int));
    while index < row
        invariant
            index <= row,
            stored@.len() == row,
            pixel > 0,
            base == before.len(),
            base + row <= usize::MAX,
            !first ==> row <= base,
            above == row_above(before, base as int, row as int, first),
            output@ == before + row_of(kind, stored@.take(index as int), above, pixel as int),
            output@.len() == base + index,
        decreases row - index,
    {
        let ghost done = row_of(kind, stored@.take(index as int), above, pixel as int);
        proof {
            lemma_next_byte(kind, stored@, index as int, above, pixel as int);
            assert(output@.skip(base as int) =~= done);
            assert(row_above(output@, base as int, row as int, first) =~= above);
        }
        let next: u8 = restore_next(output, kind, stored[index], base, row, pixel, first);
        output.push(next);
        assert(output@ =~= before + done.push(next));
        index += 1;
    }
    assert(stored@.take(row as int) =~= stored@);
}

/// Undoes a predictor that works by rows.
fn restore_rows(content: &Vec<u8>, row: u64, pixel: u64) -> (r: Result<Vec<u8>, Error>)
    requires
        0 < pixel <= row,
    ensures
        content_result(r) == rows_from(
            content@,
            0,
            Seq::new(row as nat, |i: int| 0u8),
            Layout { pixel: pixel as int, row: row as int },
        ),
{
    let ghost layout = Layout { pixel: pixel as int, row: row as int };
    let mut output: Vec<u8> = Vec::new();
    let mut position: usize = 0;
    let ghost mut above = Seq::new(row as nat, |i: int| 0u8);
    let ghost whole = rows_from(content@, 0, above, layout);
    let mut first: bool = true;
    assert(whole == (match whole {
        Ok(rest) => Ok::<Seq<u8>, Error>(Seq::empty() + rest),
        Err(error) => Err(error),
    })) by {
        if let Ok(rest) = whole {
            assert(Seq::empty() + rest =~= rest);
        }
    }
    while position < content.len()
        invariant
            position <= content@.len(),
            0 < pixel <= row,
            layout == (Layout { pixel: pixel as int, row: row as int }),
            output@.len() <= position,
            !first ==> row <= output@.len(),
            above == row_above(output@, output@.len() as int, row as int, first),
            whole == (match rows_from(content@, position as int, above, layout) {
                Ok(rest) => Ok::<Seq<u8>, Error>(output@ + rest),
                Err(error) => Err(error),
            }),
            whole == rows_from(content@, 0, Seq::new(row as nat, |i: int| 0u8), layout),
        decreases content@.len() - position,
    {
        let kind: u8 = content[position];
        if kind > 4 {
            return Err(Error::Decompress(DecompressError::Predictor("a row is of an unknown kind")));
        }
        let left: usize = content.len() - position - 1;
        if (left as u64) < row {
            return Err(Error::Decompress(DecompressError::Predictor("a row is cut short")));
        }
        let length: usize = row as usize;
        let ghost before = output@;
        let stored: &[u8] = slice_subrange(content.as_slice(), position + 1, position + 1 + length);
        let ghost line = row_of(kind, stored@, above, pixel as int);
        restore_row(&mut output, kind, stored, length, pixel as usize, first);
        proof {
            lemma_row_length(kind, stored@, above, pixel as int);
            assert(row_above(output@, output@.len() as int, row as int, false) =~= line);
            above = line;
            if let Ok(rest) = rows_from(content@, position + 1 + row, line, layout) {
                assert(before + (line + rest) =~= output@ + rest);
            }
        }
        first = false;
        position = position + 1 + length;
    }
    assert(output@ + Seq::<u8>::empty() =~= output@);
    Ok(output)
}

/// Undoes what the decode parameters of a filter ask for.
pub fn restore(parameters: Option<&Object>, content: Vec<u8>) -> (r: Result<Vec<u8>, Error>)
    ensures
        content_result(r) == restored(
            match parameters {
                Some(object) => Some(object@),
                None => None,
            },
            content@,
        ),
{
    match parameters {
        None => Ok(content),
        Some(Object::Null) => Ok(content),
        Some(Object::Dictionary(dict)) => {
            let predictor: i64 = read_predictor(dict);
            if predictor <= 1 {
                return Ok(content);
            }
            if predictor < 10 || predictor > 15 {
                return Err(Error::Decompress(DecompressError::Predictor("the predictor is not known")));
            }
            match (
                read_parameter(dict, &KEY_COLUMNS, 1),
                read_parameter(dict, &KEY_COLORS, 1),
                read_parameter(dict, &KEY_BITS_PER_COMPONENT, 8),
            ) {
                (Some(columns), Some(colors), Some(bits)) => {
                    restore_layout(columns, colors, bits, &content)
                },
                _ => Err(Error::Decompress(DecompressError::Predictor("a parameter is out of range"))),
            }
        },
        Some(_) => Err(Error::Decompress(DecompressError::Predictor("the parameters are not a dictionary"))),
    }
}

/// Undoes a predictor that works by rows of so many pixels.
fn restore_layout(columns: u64, colors: u64, bits: u64, content: &Vec<u8>) -> (r: Result<Vec<u8>, Error>)
    requires
        1 <= columns <= PARAMETER_LIMIT,
        1 <= colors <= PARAMETER_LIMIT,
        1 <= bits <= PARAMETER_LIMIT,
    ensures
        content_result(r) == rows_from(
            content@,
            0,
            Seq::new(((columns * (colors * bits) + 7) / 8) as nat, |i: int| 0u8),
            Layout { pixel: (colors * bits + 7) / 8, row: (columns * (colors * bits) + 7) / 8 },
        ),
{
    proof {
        assert(1 <= colors * bits <= 0xf_ffff * 0xf_ffff) by (nonlinear_arith)
            requires
                1 <= colors <= 0xf_ffff,
                1 <= bits <= 0xf_ffff,
        ;
        assert(1 <= columns * (colors * bits) <= 0xf_ffff * (0xf_ffff * 0xf_ffff)) by (nonlinear_arith)
            requires
                1 <= columns <= 0xf_ffff,
                1 <= colors * bits <= 0xf_ffff * 0xf_ffff,
        ;
    }
    let depth: u64 = colors * bits;
    let pixel: u64 = (depth + 7) / 8;
    let row: u64 = (columns * depth + 7) / 8;
    proof {
        assert(depth <= columns * depth) by (nonlinear_arith)
            requires
                1 <= columns,
                0 <= depth,
        ;
    }
    restore_rows(content, row, pixel)
}

} // verus!
