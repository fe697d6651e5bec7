use bittorrent_client::bencode::{decode, encode, BencodeError, Value};

fn bytes(s: &[u8]) -> Vec<u8> {
    s.to_vec()
}

#[test]
fn decode_dict_and_reencode_identical() {
    let input = b"d3:cow3:moo4:spam4:eggse";
    let (v, n) = decode(input).expect("canonical dict must decode");
    assert_eq!(n, input.len());
    match &v {
        Value::Dict(pairs) => {
            assert_eq!(pairs.len(), 2);
            assert_eq!(pairs[0].0, bytes(b"cow"));
            assert_eq!(pairs[0].1, Value::Bytes(bytes(b"moo")));
            assert_eq!(pairs[1].0, bytes(b"spam"));
            assert_eq!(pairs[1].1, Value::Bytes(bytes(b"eggs")));
        },
        other => panic!("expected a dictionary, got {:?}", other),
    }
    assert_eq!(encode(&v), input.to_vec());
}

#[test]
fn decode_list_of_int_and_string() {
    let input = b"li52e5:helloe";
    let (v, n) = decode(input).expect("canonical list must decode");
    assert_eq!(n, input.len());
    match &v {
        Value::List(items) => {
            assert_eq!(items.len(), 2);
            assert_eq!(items[0], Value::Int(52));
            assert_eq!(items[1], Value::Bytes(bytes(b"hello")));
        },
        other => panic!("expected a list, got {:?}", other),
    }
    assert_eq!(encode(&v), input.to_vec());
}

#[test]
fn decode_integers() {
    assert_eq!(decode(b"i52e").unwrap(), (Value::Int(52), 4));
    assert_eq!(decode(b"i-7e").unwrap(), (Value::Int(-7), 4));
    assert_eq!(decode(b"i0e").unwrap(), (Value::Int(0), 3));
    assert_eq!(
        decode(b"i9223372036854775807e").unwrap(),
        (Value::Int(i64::MAX), 21)
    );
    assert_eq!(
        decode(b"i-9223372036854775808e").unwrap(),
        (Value::Int(i64::MIN), 22)
    );
}

#[test]
fn decode_reports_consumed_prefix() {
    let (v, n) = decode(b"i5etrailing").unwrap();
    assert_eq!(v, Value::Int(5));
    assert_eq!(n, 3);
}

#[test]
fn reject_minus_zero() {
    assert_eq!(decode(b"i-0e"), Err(BencodeError::BadDigit));
}

#[test]
fn reject_leading_zero_int() {
    assert_eq!(decode(b"i03e"), Err(BencodeError::BadDigit));
}

#[test]
fn reject_leading_zero_string_length() {
    assert_eq!(decode(b"05:hello"), Err(BencodeError::BadDigit));
}

#[test]
fn reject_truncated_string() {
    assert_eq!(decode(b"3:ab"), Err(BencodeError::Truncated));
}

#[test]
fn reject_truncated_list() {
    assert_eq!(decode(b"li5e"), Err(BencodeError::Truncated));
}

#[test]
fn reject_bad_prefix() {
    assert_eq!(decode(b"x"), Err(BencodeError::BadPrefix));
    assert_eq!(decode(b""), Err(BencodeError::Truncated));
}

#[test]
fn reject_unsorted_dict_keys() {
    assert_eq!(decode(b"d1:b0:1:a0:e"), Err(BencodeError::UnsortedKey));
}

#[test]
fn reject_duplicate_dict_keys() {
    assert_eq!(decode(b"d1:a0:1:a0:e"), Err(BencodeError::UnsortedKey));
}

#[test]
fn reject_non_string_dict_key() {
    assert_eq!(decode(b"di1e0:e"), Err(BencodeError::NonStringKey));
}

#[test]
fn reject_oversized_integer() {
    assert_eq!(
        decode(b"i99999999999999999999999999e"),
        Err(BencodeError::LengthOverflow)
    );
    assert_eq!(
        decode(b"i9223372036854775808e"),
        Err(BencodeError::LengthOverflow)
    );
}

#[test]
fn reject_oversized_string_length() {
    assert_eq!(
        decode(b"99999999999999999999999999:a"),
        Err(BencodeError::LengthOverflow)
    );
}

#[test]
fn encode_canonical_integers() {
    assert_eq!(encode(&Value::Int(-42)), b"i-42e".to_vec());
    assert_eq!(encode(&Value::Int(0)), b"i0e".to_vec());
    assert_eq!(encode(&Value::Int(1234567890)), b"i1234567890e".to_vec());
}

#[test]
fn encode_binary_string() {
    let v = Value::Bytes(vec![0u8, 255, 10]);
    assert_eq!(encode(&v), vec![b'3', b':', 0u8, 255, 10]);
}

#[test]
fn encode_nested_structures() {
    let v = Value::List(vec![
        Value::Dict(vec![(bytes(b"k"), Value::Int(1))]),
        Value::Bytes(bytes(b"")),
    ]);
    assert_eq!(encode(&v), b"ld1:ki1ee0:e".to_vec());
}

#[test]
fn round_trip_binary_pieces_string() {
    // a dictionary whose value holds arbitrary binary bytes, as the
    // metainfo `pieces` key does
    let mut input: Vec<u8> = Vec::new();
    input.extend_from_slice(b"d1:p20:");
    input.extend_from_slice(&[0xAAu8; 20]);
    input.extend_from_slice(b"e");
    let (v, n) = decode(&input).expect("binary string must decode");
    assert_eq!(n, input.len());
    assert_eq!(encode(&v), input);
}
