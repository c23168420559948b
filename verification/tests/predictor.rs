use std::io::Write;

use flate2::write::ZlibEncoder;
use flate2::Compression;
use lopdf::errors::{DecompressError, Error};
use lopdf::filters::decode_content;
use lopdf::object::{Dictionary, Object};
use lopdf::predictor::restore;

fn deflated(plain: &[u8], level: Compression) -> Vec<u8> {
    let mut encoder = ZlibEncoder::new(Vec::new(), level);
    encoder.write_all(plain).unwrap();
    encoder.finish().unwrap()
}

fn parameters(entries: &[(&[u8], i64)]) -> Object {
    let mut dict = Dictionary::new();
    for (key, value) in entries {
        dict.set(key.to_vec(), Object::Integer(*value));
    }
    Object::Dictionary(dict)
}

#[test]
fn rows_of_every_kind_are_restored() {
    let asked = parameters(&[(b"Predictor", 15), (b"Columns", 3)]);
    let stored = [
        [0, 1, 2, 3],
        [1, 10, 5, 250],
        [2, 1, 1, 1],
        [3, 5, 5, 5],
        [4, 1, 1, 1],
    ];
    assert_eq!(
        restore(Some(&asked), stored.concat()),
        Ok(vec![1, 2, 3, 10, 15, 9, 11, 16, 10, 10, 18, 19, 11, 19, 20])
    );
}

#[test]
fn a_pixel_is_as_wide_as_its_colors() {
    let two = parameters(&[(b"Predictor", 11), (b"Columns", 2), (b"Colors", 2)]);
    assert_eq!(restore(Some(&two), vec![1, 1, 2, 3, 4]), Ok(vec![1, 2, 4, 6]));
    let narrow = parameters(&[(b"Predictor", 11), (b"Columns", 3), (b"BitsPerComponent", 4)]);
    assert_eq!(restore(Some(&narrow), vec![1, 7, 1]), Ok(vec![7, 8]));
}

#[test]
fn nothing_is_undone_where_nothing_is_asked_for() {
    for parameters in [
        None,
        Some(Object::Null),
        Some(parameters(&[])),
        Some(parameters(&[(b"Predictor", 1), (b"Columns", 3)])),
    ] {
        assert_eq!(restore(parameters.as_ref(), vec![9, 8, 7]), Ok(vec![9, 8, 7]));
    }
}

#[test]
fn rows_that_cannot_be_restored_are_refused() {
    let asked = parameters(&[(b"Predictor", 12), (b"Columns", 2)]);
    for (parameters, stored) in [
        (asked.clone(), vec![5, 0, 0]),
        (asked, vec![2, 0, 0, 2, 0]),
        (parameters(&[(b"Predictor", 2)]), vec![0]),
        (parameters(&[(b"Predictor", 12), (b"Columns", 0)]), vec![0]),
        (Object::Integer(12), vec![0]),
    ] {
        assert!(matches!(
            restore(Some(&parameters), stored),
            Err(Error::Decompress(DecompressError::Predictor(_)))
        ));
    }
}

#[test]
fn parameters_go_with_their_filter() {
    let mut dict = Dictionary::new();
    dict.set(
        b"Filter".to_vec(),
        Object::Array(vec![
            Object::Name(b"FlateDecode".to_vec()),
            Object::Name(b"FlateDecode".to_vec()),
        ]),
    );
    dict.set(
        b"DecodeParms".to_vec(),
        Object::Array(vec![
            Object::Null,
            parameters(&[(b"Predictor", 12), (b"Columns", 2)]),
        ]),
    );
    let once = deflated(&[2, 1, 2, 2, 1, 1], Compression::best());
    let twice = deflated(&once, Compression::best());
    assert_eq!(decode_content(&dict, &twice, 64), Ok(vec![1, 2, 2, 3]));
    assert_eq!(
        decode_content(&dict, &twice, 5),
        Err(Error::Decompress(DecompressError::MemoryLimitExceeded { limit: 5 }))
    );
}
