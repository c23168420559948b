//! Decoding of stream contents.

use std::io::Read;

use vstd::prelude::*;

use crate::ascii::{ascii85_decoded, ascii_hex_decoded, decode_ascii85, decode_ascii_hex};
use crate::errors::{DecompressError, Error};
use crate::object::{bytes_equal, copy_bytes, dict_get, Dictionary, DictionaryView, Object, ObjectView};
use crate::predictor::{restore, restored};

verus! {

/// The bytes of `Filter`.
pub const KEY_FILTER: [u8; 6] = [0x46, 0x69, 0x6c, 0x74, 0x65, 0x72];

/// The bytes of `DecodeParms`.
pub const KEY_DECODE_PARMS: [u8; 11] = [0x44, 0x65, 0x63, 0x6f, 0x64, 0x65, 0x50, 0x61, 0x72, 0x6d, 0x73];

/// The bytes of `Predictor`.
pub const KEY_PREDICTOR: [u8; 9] = [0x50, 0x72, 0x65, 0x64, 0x69, 0x63, 0x74, 0x6f, 0x72];

/// The bytes of `FlateDecode`.
pub const NAME_FLATE_DECODE: [u8; 11] = [0x46, 0x6c, 0x61, 0x74, 0x65, 0x44, 0x65, 0x63, 0x6f, 0x64, 0x65];

/// The bytes of `ASCIIHexDecode`.
pub const NAME_ASCII_HEX_DECODE: [u8; 14] = [
    0x41, 0x53, 0x43, 0x49, 0x49, 0x48, 0x65, 0x78, 0x44, 0x65, 0x63, 0x6f, 0x64, 0x65,
];

/// The bytes of `ASCII85Decode`.
pub const NAME_ASCII85_DECODE: [u8; 13] = [
    0x41, 0x53, 0x43, 0x49, 0x49, 0x38, 0x35, 0x44, 0x65, 0x63, 0x6f, 0x64, 0x65,
];

/// The first at most `maximum` bytes that zlib data inflates to; nothing where
/// the data is found to be broken before that many bytes have come out.
pub uninterp spec fn inflated(data: Seq<u8>, maximum: u64) -> Option<Seq<u8>>;

/// Calls `flate2::read::ZlibDecoder`, read through `Read::take` to the end. The
/// outcome depends on the data and on the maximum alone, and no more bytes come
/// out than the maximum.
#[verifier::external_body]
fn inflate(data: &[u8], maximum: u64) -> (r: Option<Vec<u8>>)
    ensures
        match r {
            Some(bytes) => inflated(data@, maximum) == Some(bytes@) && bytes@.len() <= maximum,
            None => inflated(data@, maximum) is None,
        },
{
    let mut bytes = Vec::new();
    match flate2::read::ZlibDecoder::new(data).take(maximum).read_to_end(&mut bytes) {
        Ok(_) => Some(bytes),
        Err(_) => None,
    }
}

/// What inflating gives back under a limit, from what came out when one byte
/// more than the limit was asked for.
pub open spec fn limited(outcome: Option<Seq<u8>>, limit: usize) -> Result<Seq<u8>, Error> {
    match outcome {
        Some(bytes) => if bytes.len() > limit {
            Err(Error::Decompress(DecompressError::MemoryLimitExceeded { limit }))
        } else {
            Ok(bytes)
        },
        None => Err(Error::Decompress(DecompressError::Flate)),
    }
}

/// Holds what came out of inflating to a limit.
pub fn limit_inflated(outcome: Option<Vec<u8>>, limit: usize) -> (r: Result<Vec<u8>, Error>)
    ensures
        content_result(r) == limited(
            match outcome {
                Some(bytes) => Some(bytes@),
                None => None,
            },
            limit,
        ),
{
    match outcome {
        Some(bytes) => if bytes.len() > limit {
            Err(Error::Decompress(DecompressError::MemoryLimitExceeded { limit }))
        } else {
            Ok(bytes)
        },
        None => Err(Error::Decompress(DecompressError::Flate)),
    }
}

/// The contents of a vector, or the error.
pub open spec fn content_result(r: Result<Vec<u8>, Error>) -> Result<Seq<u8>, Error> {
    match r {
        Ok(bytes) => Ok(bytes@),
        Err(error) => Err(error),
    }
}

/// The parameters ask for no predictor.
pub open spec fn plain_parameters(parameters: ObjectView) -> bool {
    match parameters {
        ObjectView::Null => true,
        ObjectView::Dictionary(dict) => match dict_get(dict, KEY_PREDICTOR@) {
            Some(ObjectView::Integer(predictor)) => predictor <= 1,
            _ => true,
        },
        _ => false,
    }
}

/// The decode parameters of the filter at `index`.
pub open spec fn parameters_of(dict: DictionaryView, index: int) -> Option<ObjectView> {
    match dict_get(dict, KEY_DECODE_PARMS@) {
        Some(ObjectView::Array(items)) => if 0 <= index < items.len() {
            Some(items[index])
        } else {
            None
        },
        parameters => parameters,
    }
}

/// Every item is a name.
pub open spec fn all_names(items: Seq<ObjectView>) -> bool {
    forall|i: int| 0 <= i < items.len() ==> (#[trigger] items[i]) is Name
}

/// The names of the filters, first to be undone first.
pub open spec fn filter_names(dict: DictionaryView) -> Result<Seq<Seq<u8>>, Error> {
    match dict_get(dict, KEY_FILTER@) {
        None => Ok(Seq::empty()),
        Some(ObjectView::Name(name)) => Ok(seq![name]),
        Some(ObjectView::Array(items)) => if all_names(items) {
            Ok(Seq::new(items.len(), |i: int| items[i]->Name_0))
        } else {
            Err(Error::InvalidStream("a stream filter is not a name"))
        },
        Some(_) => Err(Error::InvalidStream("a stream filter is not a name")),
    }
}

/// Decoded bytes, where they are not more than `limit`.
pub open spec fn within(bytes: Result<Seq<u8>, Error>, limit: usize) -> Result<Seq<u8>, Error> {
    match bytes {
        Ok(bytes) => if bytes.len() > limit {
            Err(Error::Decompress(DecompressError::MemoryLimitExceeded { limit }))
        } else {
            Ok(bytes)
        },
        Err(error) => Err(error),
    }
}

/// What one filter turns into, of which at most `limit` bytes are kept.
pub open spec fn undone(
    name: Seq<u8>,
    parameters: Option<ObjectView>,
    content: Seq<u8>,
    limit: usize,
) -> Result<Seq<u8>, Error> {
    if name == NAME_FLATE_DECODE@ {
        match limited(
            inflated(
                content,
                if limit < u64::MAX {
                    (limit + 1) as u64
                } else {
                    u64::MAX
                },
            ),
            limit,
        ) {
            Ok(bytes) => restored(parameters, bytes),
            Err(error) => Err(error),
        }
    } else if name == NAME_ASCII_HEX_DECODE@ {
        within(ascii_hex_decoded(content), limit)
    } else if name == NAME_ASCII85_DECODE@ {
        within(ascii85_decoded(content), limit)
    } else {
        Err(Error::Decompress(DecompressError::UnsupportedFilter))
    }
}

/// What is left when the filters from `index` on have been undone.
pub open spec fn unfiltered(
    dict: DictionaryView,
    names: Seq<Seq<u8>>,
    index: int,
    content: Seq<u8>,
    limit: usize,
) -> Result<Seq<u8>, Error>
    decreases names.len() - index,
{
    if index >= names.len() {
        within(Ok(content), limit)
    } else {
        match undone(names[index], parameters_of(dict, index), content, limit) {
            Ok(bytes) => unfiltered(dict, names, index + 1, bytes, limit),
            Err(error) => Err(error),
        }
    }
}

/// The decoded content of a stream, of which at most `limit` bytes are kept.
pub open spec fn decoded(dict: DictionaryView, content: Seq<u8>, limit: usize) -> Result<Seq<u8>, Error> {
    match filter_names(dict) {
        Err(error) => Err(error),
        Ok(names) => unfiltered(dict, names, 0, content, limit),
    }
}

pub(crate) fn asks_for_no_predictor(parameters: &Object) -> (r: bool)
    ensures
        r == plain_parameters(parameters@),
{
    match parameters {
        Object::Null => true,
        Object::Dictionary(dict) => match dict.get(&KEY_PREDICTOR) {
            Some(Object::Integer(predictor)) => *predictor <= 1,
            _ => true,
        },
        _ => false,
    }
}

fn decode_parameters(dict: &Dictionary, index: usize) -> (r: Option<&Object>)
    ensures
        match r {
            Some(object) => parameters_of(dict@, index as int) == Some(object@),
            None => parameters_of(dict@, index as int) is None,
        },
{
    match dict.get(&KEY_DECODE_PARMS) {
        Some(Object::Array(items)) => if index < items.len() {
            Some(&items[index])
        } else {
            None
        },
        parameters => parameters,
    }
}

/// The names of the filters of a stream.
pub fn stream_filters(dict: &Dictionary) -> (r: Result<Vec<Vec<u8>>, Error>)
    ensures
        match r {
            Ok(names) => filter_names(dict@) == Ok::<Seq<Seq<u8>>, Error>(
                Seq::new(names@.len(), |i: int| names@[i]@),
            ),
            Err(error) => filter_names(dict@) == Err::<Seq<Seq<u8>>, Error>(error),
        },
{
    let mut names: Vec<Vec<u8>> = Vec::new();
    match dict.get(&KEY_FILTER) {
        None => {
            assert(Seq::new(names@.len(), |i: int| names@[i]@) =~= Seq::<Seq<u8>>::empty());
            Ok(names)
        },
        Some(Object::Name(name)) => {
            names.push(copy_bytes(name));
            assert(Seq::new(names@.len(), |i: int| names@[i]@) =~= seq![name@]);
            Ok(names)
        },
        Some(Object::Array(items)) => {
            let ghost shown = dict_get(dict@, KEY_FILTER@)->0->Array_0;
            let mut index: usize = 0;
            while index < items.len()
                invariant
                    index <= items@.len() == shown.len(),
                    dict_get(dict@, KEY_FILTER@) == Some(ObjectView::Array(shown)),
                    forall|i: int| 0 <= i < items@.len() ==> #[trigger] shown[i] == items@[i]@,
                    forall|i: int| 0 <= i < index ==> (#[trigger] shown[i]) is Name,
                    names@.len() == index,
                    forall|i: int| 0 <= i < index ==> (#[trigger] names@[i])@ == shown[i]->Name_0,
                decreases items@.len() - index,
            {
                match &items[index] {
                    Object::Name(name) => {
                        assert(shown[index as int] is Name);
                        names.push(copy_bytes(name));
                    },
                    _ => {
                        assert(shown[index as int] !is Name);
                        return Err(Error::InvalidStream("a stream filter is not a name"));
                    },
                }
                index += 1;
            }
            assert(Seq::new(names@.len(), |i: int| names@[i]@) =~= Seq::new(
                shown.len(),
                |i: int| shown[i]->Name_0,
            ));
            Ok(names)
        },
        Some(_) => Err(Error::InvalidStream("a stream filter is not a name")),
    }
}

/// Holds decoded bytes to a limit.
fn hold_within(bytes: Result<Vec<u8>, Error>, limit: usize) -> (r: Result<Vec<u8>, Error>)
    ensures
        content_result(r) == within(content_result(bytes), limit),
{
    match bytes {
        Ok(bytes) => if bytes.len() > limit {
            Err(Error::Decompress(DecompressError::MemoryLimitExceeded { limit }))
        } else {
            Ok(bytes)
        },
        Err(error) => Err(error),
    }
}

/// Undoes one filter.
fn undo_filter(name: &Vec<u8>, parameters: Option<&Object>, content: &Vec<u8>, limit: usize) -> (r: Result<
    Vec<u8>,
    Error,
>)
    ensures
        content_result(r) == undone(
            name@,
            match parameters {
                Some(object) => Some(object@),
                None => None,
            },
            content@,
            limit,
        ),
{
    if bytes_equal(name.as_slice(), &NAME_FLATE_DECODE) {
        let maximum: u64 = if (limit as u64) < u64::MAX {
            limit as u64 + 1
        } else {
            u64::MAX
        };
        match limit_inflated(inflate(content.as_slice(), maximum), limit) {
            Ok(out) => restore(parameters, out),
            Err(error) => Err(error),
        }
    } else if bytes_equal(name.as_slice(), &NAME_ASCII_HEX_DECODE) {
        hold_within(decode_ascii_hex(content.as_slice()), limit)
    } else if bytes_equal(name.as_slice(), &NAME_ASCII85_DECODE) {
        hold_within(decode_ascii85(content.as_slice()), limit)
    } else {
        Err(Error::Decompress(DecompressError::UnsupportedFilter))
    }
}

/// Decodes the content of a stream, of which at most `limit` bytes are kept.
pub fn decode_content(dict: &Dictionary, content: &Vec<u8>, limit: usize) -> (r: Result<Vec<u8>, Error>)
    ensures
        content_result(r) == decoded(dict@, content@, limit),
{
    let names: Vec<Vec<u8>> = match stream_filters(dict) {
        Ok(names) => names,
        Err(error) => {
            return Err(error);
        },
    };
    let ghost shown = Seq::new(names@.len(), |i: int| names@[i]@);
    let mut bytes: Vec<u8> = copy_bytes(content);
    let mut index: usize = 0;
    while index < names.len()
        invariant
            index <= names@.len(),
            shown == Seq::new(names@.len(), |i: int| names@[i]@),
            decoded(dict@, content@, limit) == unfiltered(
                dict@,
                shown,
                index as int,
                bytes@,
                limit,
            ),
        decreases names@.len() - index,
    {
        assert(shown[index as int] == names@[index as int]@);
        match undo_filter(&names[index], decode_parameters(dict, index), &bytes, limit) {
            Ok(out) => {
                bytes = out;
            },
            Err(error) => {
                return Err(error);
            },
        }
        index += 1;
    }
    hold_within(Ok(bytes), limit)
}

} // verus!
