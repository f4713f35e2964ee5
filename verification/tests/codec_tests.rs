//! The stored-value codec: exact byte layout and round trips.

use topodex::codec::{decode_value, encode_value};
use topodex::types::{GeohashValue, UndecidedValue};

#[test]
fn encode_direct_exact_bytes() {
    let v = GeohashValue::DirectValue { value: b"A".to_vec() };
    let bytes = encode_value(&v);
    assert_eq!(bytes, vec![0u8, 1, 0, 0, 0, 0, 0, 0, 0, 65]);
}

#[test]
fn encode_undecided_exact_bytes() {
    let v = GeohashValue::Undecided {
        options: vec![UndecidedValue { value: b"A".to_vec(), shape: vec![7, 8] }],
    };
    let bytes = encode_value(&v);
    let mut expected: Vec<u8> = vec![1u8];
    expected.extend_from_slice(&[1, 0, 0, 0, 0, 0, 0, 0]); // one option
    expected.extend_from_slice(&[1, 0, 0, 0, 0, 0, 0, 0]); // value length
    expected.push(65);
    expected.extend_from_slice(&[2, 0, 0, 0, 0, 0, 0, 0]); // shape length
    expected.extend_from_slice(&[7, 8]);
    assert_eq!(bytes, expected);
}

#[test]
fn round_trip_direct() {
    let v = GeohashValue::DirectValue { value: b"country".to_vec() };
    let bytes = encode_value(&v);
    let back = decode_value(&bytes).expect("decodes");
    assert_eq!(back, v);
}

#[test]
fn round_trip_direct_empty_value() {
    let v = GeohashValue::DirectValue { value: Vec::new() };
    let bytes = encode_value(&v);
    assert_eq!(decode_value(&bytes), Some(v));
}

#[test]
fn round_trip_undecided() {
    let v = GeohashValue::Undecided {
        options: vec![
            UndecidedValue { value: b"A".to_vec(), shape: vec![1, 2, 3] },
            UndecidedValue { value: b"B".to_vec(), shape: Vec::new() },
            UndecidedValue { value: Vec::new(), shape: vec![255] },
        ],
    };
    let bytes = encode_value(&v);
    assert_eq!(decode_value(&bytes), Some(v));
}

#[test]
fn round_trip_undecided_no_options() {
    let v = GeohashValue::Undecided { options: Vec::new() };
    let bytes = encode_value(&v);
    assert_eq!(decode_value(&bytes), Some(v));
}

#[test]
fn decode_rejects_empty() {
    assert_eq!(decode_value(&Vec::new()), None);
}

#[test]
fn decode_rejects_unknown_tag() {
    assert_eq!(decode_value(&vec![2u8, 0, 0, 0]), None);
}

#[test]
fn decode_rejects_truncated_direct() {
    let v = GeohashValue::DirectValue { value: b"ABC".to_vec() };
    let mut bytes = encode_value(&v);
    bytes.pop();
    assert_eq!(decode_value(&bytes), None);
}

#[test]
fn decode_rejects_trailing_garbage() {
    let v = GeohashValue::DirectValue { value: b"A".to_vec() };
    let mut bytes = encode_value(&v);
    bytes.push(0);
    assert_eq!(decode_value(&bytes), None);
}

#[test]
fn decode_rejects_truncated_undecided() {
    let v = GeohashValue::Undecided {
        options: vec![UndecidedValue { value: b"A".to_vec(), shape: vec![9] }],
    };
    let mut bytes = encode_value(&v);
    bytes.truncate(bytes.len() - 2);
    assert_eq!(decode_value(&bytes), None);
}
