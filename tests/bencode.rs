use bittorrent::bencode::Value;
use bittorrent::decoder::{decode_at, DecodeError, Decoder};
use bittorrent::encoder::{bytes_less, encode};

fn decode_str(s: &str) -> Result<Value, DecodeError> {
    Decoder::new(s).decode()
}

fn bytes_of(v: &Value) -> Vec<u8> {
    match v {
        Value::ByteString(b) => b.clone(),
        other => panic!("not a byte string: {:?}", other),
    }
}

#[test]
fn decodes_byte_string() {
    let v = decode_str("4:spam").unwrap();
    assert_eq!(bytes_of(&v), b"spam".to_vec());
}

#[test]
fn decodes_empty_byte_string() {
    let v = decode_str("0:").unwrap();
    assert_eq!(bytes_of(&v), Vec::<u8>::new());
}

#[test]
fn decodes_positive_integer() {
    assert!(matches!(decode_str("i52e"), Ok(Value::Integer(52))));
}

#[test]
fn decodes_negative_integer() {
    assert!(matches!(decode_str("i-1e"), Ok(Value::Integer(-1))));
}

#[test]
fn decodes_zero_and_extremes() {
    assert!(matches!(decode_str("i0e"), Ok(Value::Integer(0))));
    assert!(matches!(
        decode_str("i9223372036854775807e"),
        Ok(Value::Integer(i64::MAX))
    ));
    assert!(matches!(
        decode_str("i-9223372036854775808e"),
        Ok(Value::Integer(i64::MIN))
    ));
}

#[test]
fn rejects_non_canonical_integers() {
    assert_eq!(decode_str("i03e").unwrap_err(), DecodeError);
    assert_eq!(decode_str("i-0e").unwrap_err(), DecodeError);
    assert_eq!(decode_str("ie").unwrap_err(), DecodeError);
    assert_eq!(decode_str("i-e").unwrap_err(), DecodeError);
    assert_eq!(decode_str("i1x2e").unwrap_err(), DecodeError);
    assert_eq!(decode_str("i9223372036854775808e").unwrap_err(), DecodeError);
    assert_eq!(decode_str("i-9223372036854775809e").unwrap_err(), DecodeError);
    assert_eq!(decode_str("i12").unwrap_err(), DecodeError);
}

#[test]
fn decodes_list() {
    match decode_str("l4:spam4:eggse").unwrap() {
        Value::List(items) => {
            assert_eq!(items.len(), 2);
            assert_eq!(bytes_of(&items[0]), b"spam".to_vec());
            assert_eq!(bytes_of(&items[1]), b"eggs".to_vec());
        }
        other => panic!("not a list: {:?}", other),
    }
}

#[test]
fn decodes_empty_list() {
    match decode_str("le").unwrap() {
        Value::List(items) => assert!(items.is_empty()),
        other => panic!("not a list: {:?}", other),
    }
}

#[test]
fn decodes_dictionary() {
    let v = decode_str("d3:cow3:moo4:spam4:eggse").unwrap();
    match &v {
        Value::Dictionary(es) => {
            assert_eq!(es.len(), 2);
            assert_eq!(es[0].0, b"cow".to_vec());
            assert_eq!(es[1].0, b"spam".to_vec());
        }
        other => panic!("not a dictionary: {:?}", other),
    }
    assert_eq!(bytes_of(v.get(b"cow").unwrap()), b"moo".to_vec());
    assert_eq!(bytes_of(v.get(b"spam").unwrap()), b"eggs".to_vec());
    assert!(v.get(b"pig").is_none());
}

#[test]
fn dictionary_keeps_decode_order_and_overwrites_repeated_keys() {
    let v = decode_str("d1:bi1e1:ai2e1:bi3ee").unwrap();
    match &v {
        Value::Dictionary(es) => {
            assert_eq!(es.len(), 2);
            assert_eq!(es[0].0, b"b".to_vec());
            assert!(matches!(es[0].1, Value::Integer(3)));
            assert_eq!(es[1].0, b"a".to_vec());
        }
        other => panic!("not a dictionary: {:?}", other),
    }
}

#[test]
fn decodes_nested_values() {
    let v = decode_str("d4:listli1ei2ee3:subd1:x0:ee").unwrap();
    match v.get(b"list").unwrap() {
        Value::List(items) => assert_eq!(items.len(), 2),
        other => panic!("not a list: {:?}", other),
    }
    assert!(v.get(b"sub").unwrap().get(b"x").is_some());
}

#[test]
fn rejects_malformed_inputs() {
    assert_eq!(decode_str("4spam").unwrap_err(), DecodeError);
    assert_eq!(decode_str("l4:spam").unwrap_err(), DecodeError);
    assert_eq!(decode_str("5:ab").unwrap_err(), DecodeError);
    assert_eq!(decode_str("").unwrap_err(), DecodeError);
    assert_eq!(decode_str("x").unwrap_err(), DecodeError);
    assert_eq!(decode_str("d3:cowe").unwrap_err(), DecodeError);
    assert_eq!(decode_str("di1ei2ee").unwrap_err(), DecodeError);
    assert_eq!(decode_str("99999999999999999999999:a").unwrap_err(), DecodeError);
}

#[test]
fn decoder_advances_past_each_value() {
    let mut d = Decoder::new("i1e3:abc");
    assert!(matches!(d.decode(), Ok(Value::Integer(1))));
    assert_eq!(bytes_of(&d.decode().unwrap()), b"abc".to_vec());
    assert!(d.decode().is_err());
}

#[test]
fn decode_at_reports_the_end() {
    let (v, end) = decode_at(b"4:spamxyz", 0).unwrap();
    assert_eq!(bytes_of(&v), b"spam".to_vec());
    assert_eq!(end, 6);
}

#[test]
fn encodes_integers_and_strings() {
    assert_eq!(encode(&Value::Integer(52)), b"i52e".to_vec());
    assert_eq!(encode(&Value::Integer(-1)), b"i-1e".to_vec());
    assert_eq!(encode(&Value::Integer(0)), b"i0e".to_vec());
    assert_eq!(
        encode(&Value::Integer(i64::MIN)),
        b"i-9223372036854775808e".to_vec()
    );
    assert_eq!(encode(&Value::ByteString(b"spam".to_vec())), b"4:spam".to_vec());
    assert_eq!(encode(&Value::ByteString(vec![0u8; 10])).len(), 13);
}

#[test]
fn encodes_dictionary_keys_in_sorted_order() {
    let v = Value::Dictionary(vec![
        (b"spam".to_vec(), Value::ByteString(b"eggs".to_vec())),
        (b"cow".to_vec(), Value::ByteString(b"moo".to_vec())),
        (b"co".to_vec(), Value::List(vec![Value::Integer(1)])),
    ]);
    assert_eq!(encode(&v), b"d2:coli1ee3:cow3:moo4:spam4:eggse".to_vec());
}

#[test]
fn byte_order_is_lexicographic() {
    assert!(bytes_less(b"co", b"cow"));
    assert!(bytes_less(b"length", b"name"));
    assert!(bytes_less(b"piece length", b"pieces"));
    assert!(!bytes_less(b"pieces", b"piece length"));
    assert!(!bytes_less(b"abc", b"abc"));
    assert!(bytes_less(b"", b"a"));
}

#[test]
fn round_trip_normalises_key_order() {
    let text = "d4:spaml1:a1:be3:cowi-7e1:zd1:y0:1:x0:ee";
    let v = decode_str(text).unwrap();
    let bytes = encode(&v);
    assert_eq!(
        bytes,
        b"d3:cowi-7e4:spaml1:a1:be1:zd1:x0:1:y0:ee".to_vec()
    );
    let again = Decoder::from_bytes(&bytes).decode().unwrap();
    assert_eq!(encode(&again), bytes);
    match again {
        Value::Dictionary(es) => {
            let keys: Vec<Vec<u8>> = es.iter().map(|e| e.0.clone()).collect();
            assert_eq!(keys, vec![b"cow".to_vec(), b"spam".to_vec(), b"z".to_vec()]);
        }
        other => panic!("not a dictionary: {:?}", other),
    }
}

#[test]
fn accepts_zero_padded_length_prefix() {
    let v = decode_str("04:spam").unwrap();
    assert_eq!(bytes_of(&v), b"spam".to_vec());
}

#[test]
fn decodes_non_text_bytes() {
    let (v, end) = decode_at(&[b'2', b':', 0xff, 0x00], 0).unwrap();
    assert_eq!(bytes_of(&v), vec![0xff, 0x00]);
    assert_eq!(end, 4);
    assert_eq!(encode(&v), vec![b'2', b':', 0xff, 0x00]);
}
