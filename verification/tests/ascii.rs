use lopdf::ascii::{decode_ascii85, decode_ascii_hex};
use lopdf::errors::{DecompressError, Error, IndexedReaderError};
use lopdf::filters::decode_content;
use lopdf::object::{Dictionary, Object};
use lopdf::xref::read_be;



fn filtered(name: &[u8]) -> Dictionary {
    let mut dict = Dictionary::new();
    dict.set(b"Filter".to_vec(), Object::Name(name.to_vec()));
    dict
}

#[test]
fn hexadecimal_text_is_decoded() {
    assert_eq!(decode_ascii_hex(b"48 65\n6C6c 6F>zz"), Ok(b"Hello".to_vec()));
    assert_eq!(decode_ascii_hex(b"4"), Ok(b"\x40".to_vec()));
    assert_eq!(decode_ascii_hex(b""), Ok(vec![]));
    assert_eq!(
        decode_ascii_hex(b"4g>"),
        Err(Error::Decompress(DecompressError::AsciiHex("invalid character")))
    );
    assert_eq!(
        decode_ascii_hex(b"g"),
        Err(Error::Decompress(DecompressError::AsciiHex("invalid character")))
    );
}

#[test]
fn base_85_text_is_decoded() {
    assert_eq!(decode_ascii85(b"87cUR\nD]i,\"Ebo9-~>"), Ok(b"Hello Worlds".to_vec()));
    assert_eq!(decode_ascii85(b"9jqo^~>ignored"), Ok(b"Man ".to_vec()));
    assert_eq!(decode_ascii85(b"z9jqo^z"), Ok(b"\0\0\0\0Man \0\0\0\0".to_vec()));
    assert_eq!(decode_ascii85(b"9jqo"), Ok(b"Man".to_vec()));
    assert_eq!(decode_ascii85(b"s8W-!"), Ok(b"\xff\xff\xff\xff".to_vec()));
    assert_eq!(
        decode_ascii85(b"s8W-\""),
        Err(Error::Decompress(DecompressError::Ascii85("group out of range")))
    );
    assert_eq!(
        decode_ascii85(b"uuuuu"),
        Err(Error::Decompress(DecompressError::Ascii85("group out of range")))
    );
    assert_eq!(
        decode_ascii85(b"9jqo^9"),
        Err(Error::Decompress(DecompressError::Ascii85("incomplete group")))
    );
    assert_eq!(
        decode_ascii85(b"9jz"),
        Err(Error::Decompress(DecompressError::Ascii85("invalid character")))
    );
}

#[test]
fn text_filters_are_undone_in_turn_and_held_to_the_limit() {
    assert_eq!(
        decode_content(&filtered(b"ASCIIHexDecode"), &b"4d616e".to_vec(), 3),
        Ok(b"Man".to_vec())
    );
    assert_eq!(
        decode_content(&filtered(b"ASCIIHexDecode"), &b"4d616e".to_vec(), 2),
        Err(Error::Decompress(DecompressError::MemoryLimitExceeded { limit: 2 }))
    );
    assert_eq!(
        decode_content(&filtered(b"ASCII85Decode"), &b"9jqo^".to_vec(), 4),
        Ok(b"Man ".to_vec())
    );
    let mut both = Dictionary::new();
    both.set(
        b"Filter".to_vec(),
        Object::Array(vec![
            Object::Name(b"ASCIIHexDecode".to_vec()),
            Object::Name(b"ASCII85Decode".to_vec()),
        ]),
    );
    assert_eq!(
        decode_content(&both, &b"39 6a 71 6f 5e >".to_vec(), 16),
        Ok(b"Man ".to_vec())
    );
}

#[test]
fn fields_are_read_one_behind_the_other() {
    let content = [0x01, 0x02, 0x03, 0xff, 0xff, 0xff, 0xff, 0xff, 0xff, 0xff, 0xff, 0x05];
    let mut input: &[u8] = &content;
    assert_eq!(read_be(&mut input, 1, 9), Ok(1));
    assert_eq!(read_be(&mut input, 0, 9), Ok(0));
    assert_eq!(read_be(&mut input, 2, 9), Ok(0x0203));
    assert_eq!(read_be(&mut input, 8, 9), Ok(u64::MAX));
    assert_eq!(
        read_be(&mut input, 2, 9),
        Err(IndexedReaderError::InvalidXref { offset: 9 })
    );
    assert_eq!(input, &[0x05]);
    assert_eq!(read_be(&mut input, 1, 9), Ok(5));
}
