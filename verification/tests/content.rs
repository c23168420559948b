use std::mem::size_of;

use lopdf::content::{Content, Operation};
use lopdf::object::{Dictionary, Object, Stream, StringFormat};

#[test]
fn retained_weight_tracks_operator_operand_and_operation_capacity() {
    let mut operator = String::with_capacity(128);
    operator.push_str("Tj");
    let mut text = Vec::with_capacity(256);
    text.extend_from_slice(b"hello");
    let mut operands = Vec::with_capacity(16);
    operands.push(Object::String(text, StringFormat::Literal));
    let operation = Operation { operator, operands };
    let compact = Operation::new("Tj", vec![Object::string_literal(b"hello".to_vec())]);

    assert!(operation.retained_bytes() > compact.retained_bytes());

    let mut operations = Vec::with_capacity(8);
    operations.push(operation);
    let content = Content { operations };
    let compact_content = Content {
        operations: vec![compact],
    };
    assert!(content.retained_bytes() > compact_content.retained_bytes());
    assert!(
        content.retained_bytes()
            >= u64::try_from(
                size_of::<Content<Vec<Operation>>>()
                    + 8 * size_of::<Operation>()
                    + 128
                    + 16 * size_of::<Object>()
                    + 256,
            )
            .unwrap()
    );
}

#[test]
fn content_is_encoded_operands_first() {
    let content = Content {
        operations: vec![
            Operation::new("BT", vec![]),
            Operation::new(
                "Tf",
                vec![Object::Name(b"F1".to_vec()), Object::Integer(48)],
            ),
            Operation::new(
                "Td",
                vec![Object::Integer(100), Object::Real(b"600.5".to_vec())],
            ),
            Operation::new("Tj", vec![Object::string_literal(b"Hello".to_vec())]),
            Operation::new("ET", vec![]),
        ],
    };
    assert_eq!(
        content.encode().unwrap(),
        b"BT\n/F1 48 Tf\n100 600.5 Td\n(Hello) Tj\nET".to_vec()
    );
    let empty: Content<Vec<Operation>> = Content { operations: vec![] };
    assert_eq!(empty.encode().unwrap(), b"".to_vec());
}

#[test]
fn every_kind_of_operand_is_encoded() {
    let mut dict = Dictionary::new();
    dict.set(b"K".to_vec(), Object::Boolean(true));
    dict.set(b"A#B".to_vec(), Object::Null);
    let mut stream_dict = Dictionary::new();
    stream_dict.set(b"Length".to_vec(), Object::Integer(3));
    let operation = Operation::new(
        "op",
        vec![
            Object::Array(vec![Object::Integer(-1), Object::Reference((7, 2))]),
            Object::Dictionary(dict),
            Object::String(b"\x0a\xff".to_vec(), StringFormat::Hexadecimal),
            Object::String(b"a(b\\\r".to_vec(), StringFormat::Literal),
            Object::Stream(Stream {
                dict: stream_dict,
                content: b"xyz".to_vec(),
                start_position: None,
            }),
        ],
    );
    let encoded = Content {
        operations: vec![operation],
    }
    .encode()
    .unwrap();
    assert_eq!(
        String::from_utf8(encoded).unwrap(),
        "[-1 7 2 R] <</K true/A#23B null>> <0AFF> (a\\(b\\\\\\r) <</Length 3>>stream\nxyz\nendstream op"
    );
}

#[test]
fn content_is_encoded_from_any_list_of_operations() {
    let operations = vec![Operation::new("q", vec![]), Operation::new("w", vec![Object::Integer(2)])];
    let expected = b"q\n2 w".to_vec();
    assert_eq!(Content { operations: operations.as_slice() }.encode().unwrap(), expected);
    assert_eq!(Content { operations: &operations }.encode().unwrap(), expected);
    let array = [Operation::new("q", vec![]), Operation::new("w", vec![Object::Integer(2)])];
    assert_eq!(Content { operations: &array }.encode().unwrap(), expected);
    assert_eq!(Content { operations: array }.encode().unwrap(), expected);
    assert_eq!(Content { operations }.encode().unwrap(), expected);
}
