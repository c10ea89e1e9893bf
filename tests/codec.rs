use bencode_torrent::decode::{decode, DecodeError, MAX_DEPTH};
use bencode_torrent::encode::encode;
use bencode_torrent::value::{dictionary_from_pairs, insert_entry, key_less, BencodeValue};

fn bytes(s: &[u8]) -> BencodeValue {
    BencodeValue::ByteString(s.to_vec())
}

#[test]
fn decodes_empty_string() {
    let (v, rest) = decode(b"0:").unwrap();
    assert_eq!(v, bytes(b""));
    assert!(rest.is_empty());
}

#[test]
fn decodes_zero() {
    let (v, rest) = decode(b"i0e").unwrap();
    assert_eq!(v, BencodeValue::Integer(0));
    assert!(rest.is_empty());
}

#[test]
fn decodes_empty_list() {
    let (v, rest) = decode(b"le").unwrap();
    assert_eq!(v, BencodeValue::List(vec![]));
    assert!(rest.is_empty());
}

#[test]
fn decodes_empty_dictionary() {
    let (v, rest) = decode(b"de").unwrap();
    assert_eq!(v, BencodeValue::Dictionary(vec![]));
    assert!(rest.is_empty());
}

#[test]
fn decodes_negative_integer() {
    let (v, _) = decode(b"i-42e").unwrap();
    assert_eq!(v, BencodeValue::Integer(-42));
}

#[test]
fn rejects_negative_zero() {
    assert_eq!(decode(b"i-0e"), Err(DecodeError::MalformedInteger));
}

#[test]
fn rejects_leading_zero() {
    assert_eq!(decode(b"i03e"), Err(DecodeError::MalformedInteger));
}

#[test]
fn rejects_other_integer_text() {
    assert_eq!(decode(b"ie"), Err(DecodeError::MalformedInteger));
    assert_eq!(decode(b"i+1e"), Err(DecodeError::MalformedInteger));
    assert_eq!(decode(b"i1xe"), Err(DecodeError::MalformedInteger));
    assert_eq!(decode(b"i-e"), Err(DecodeError::MalformedInteger));
    assert_eq!(decode(b"i9223372036854775808e"), Err(DecodeError::MalformedInteger));
}

#[test]
fn decodes_extreme_integers() {
    let (v, _) = decode(b"i9223372036854775807e").unwrap();
    assert_eq!(v, BencodeValue::Integer(i64::MAX));
    let (v, _) = decode(b"i-9223372036854775808e").unwrap();
    assert_eq!(v, BencodeValue::Integer(i64::MIN));
}

#[test]
fn rejects_truncated_string() {
    assert_eq!(decode(b"5:ab"), Err(DecodeError::TruncatedInput));
}

#[test]
fn rejects_unterminated_values() {
    assert_eq!(decode(b"i42"), Err(DecodeError::TruncatedInput));
    assert_eq!(decode(b"12"), Err(DecodeError::TruncatedInput));
    assert_eq!(decode(b"l4:spam"), Err(DecodeError::TruncatedInput));
    assert_eq!(decode(b"d3:key"), Err(DecodeError::UnknownValueTag));
    assert_eq!(decode(b"d3:keyi1e"), Err(DecodeError::TruncatedInput));
}

#[test]
fn rejects_malformed_length() {
    assert_eq!(decode(b"1x:a"), Err(DecodeError::MalformedLength));
    assert_eq!(decode(b"99999999999999999999999:a"), Err(DecodeError::MalformedLength));
}

#[test]
fn rejects_unknown_tag() {
    assert_eq!(decode(b""), Err(DecodeError::UnknownValueTag));
    assert_eq!(decode(b"x"), Err(DecodeError::UnknownValueTag));
    assert_eq!(decode(b"lxe"), Err(DecodeError::UnknownValueTag));
}

#[test]
fn rejects_non_string_key() {
    assert_eq!(decode(b"di1e3:abce"), Err(DecodeError::NonStringKey));
}

#[test]
fn rejects_deep_nesting() {
    let mut ok = vec![b'l'; MAX_DEPTH];
    ok.extend(vec![b'e'; MAX_DEPTH]);
    assert!(decode(&ok).is_ok());
    let mut deep = vec![b'l'; MAX_DEPTH + 1];
    deep.extend(vec![b'e'; MAX_DEPTH + 1]);
    assert_eq!(decode(&deep), Err(DecodeError::NestingTooDeep));
}

#[test]
fn decodes_nested_list() {
    let (v, rest) = decode(b"l4:spami42ee").unwrap();
    assert_eq!(v, BencodeValue::List(vec![bytes(b"spam"), BencodeValue::Integer(42)]));
    assert!(rest.is_empty());
}

#[test]
fn returns_unconsumed_bytes() {
    let (v, rest) = decode(b"4:spami7e").unwrap();
    assert_eq!(v, bytes(b"spam"));
    assert_eq!(rest, b"i7e");
    let (w, rest) = decode(rest).unwrap();
    assert_eq!(w, BencodeValue::Integer(7));
    assert!(rest.is_empty());
}

#[test]
fn decoded_dictionary_is_sorted_and_last_key_wins() {
    let (v, _) = decode(b"d1:bi1e1:ai2e1:bi3ee").unwrap();
    assert_eq!(
        v,
        BencodeValue::Dictionary(vec![
            (b"a".to_vec(), BencodeValue::Integer(2)),
            (b"b".to_vec(), BencodeValue::Integer(3)),
        ])
    );
}

#[test]
fn encodes_each_kind() {
    assert_eq!(encode(&bytes(b"spam")), b"4:spam".to_vec());
    assert_eq!(encode(&BencodeValue::Integer(0)), b"i0e".to_vec());
    assert_eq!(encode(&BencodeValue::Integer(-42)), b"i-42e".to_vec());
    assert_eq!(encode(&BencodeValue::Integer(i64::MIN)), b"i-9223372036854775808e".to_vec());
    assert_eq!(encode(&BencodeValue::List(vec![])), b"le".to_vec());
    assert_eq!(encode(&BencodeValue::Dictionary(vec![])), b"de".to_vec());
}

#[test]
fn round_trips_nested_value() {
    let v = dictionary_from_pairs(vec![
        (b"list".to_vec(), BencodeValue::List(vec![bytes(b""), BencodeValue::Integer(-7)])),
        (b"bin".to_vec(), bytes(&[0, 255, 58, 101])),
        (b"n".to_vec(), BencodeValue::Integer(1234567890)),
    ]);
    let e = encode(&v);
    let (w, rest) = decode(&e).unwrap();
    assert_eq!(w, v);
    assert!(rest.is_empty());
}

#[test]
fn dictionary_encoding_ignores_insertion_order() {
    let a = dictionary_from_pairs(vec![
        (b"zeta".to_vec(), BencodeValue::Integer(1)),
        (b"alpha".to_vec(), BencodeValue::Integer(2)),
        (b"mid".to_vec(), bytes(b"x")),
    ]);
    let b = dictionary_from_pairs(vec![
        (b"mid".to_vec(), bytes(b"x")),
        (b"zeta".to_vec(), BencodeValue::Integer(1)),
        (b"alpha".to_vec(), BencodeValue::Integer(2)),
    ]);
    assert_eq!(encode(&a), encode(&b));
    assert_eq!(encode(&a), b"d5:alphai2e3:mid1:x4:zetai1ee".to_vec());
}

#[test]
fn keys_sort_by_raw_bytes() {
    let d = dictionary_from_pairs(vec![
        (b"ab".to_vec(), BencodeValue::Integer(1)),
        (b"a".to_vec(), BencodeValue::Integer(2)),
        (vec![0xff], BencodeValue::Integer(3)),
        (b"B".to_vec(), BencodeValue::Integer(4)),
    ]);
    assert_eq!(encode(&d), b"d1:Bi4e1:ai2e2:abi1e1:\xffi3ee".to_vec());
}

#[test]
fn key_order_is_raw_byte_order() {
    assert!(key_less(b"a", b"b"));
    assert!(key_less(b"a", b"ab"));
    assert!(!key_less(b"ab", b"a"));
    assert!(!key_less(b"a", b"a"));
    assert!(key_less(b"", b"a"));
    assert!(key_less(b"Z", b"a"));
}

#[test]
fn insert_entry_keeps_order_and_replaces() {
    let mut es = Vec::new();
    insert_entry(&mut es, b"m".to_vec(), BencodeValue::Integer(1));
    insert_entry(&mut es, b"a".to_vec(), BencodeValue::Integer(2));
    insert_entry(&mut es, b"z".to_vec(), BencodeValue::Integer(3));
    insert_entry(&mut es, b"m".to_vec(), BencodeValue::Integer(4));
    assert_eq!(
        es,
        vec![
            (b"a".to_vec(), BencodeValue::Integer(2)),
            (b"m".to_vec(), BencodeValue::Integer(4)),
            (b"z".to_vec(), BencodeValue::Integer(3)),
        ]
    );
}

#[test]
fn encode_sorts_hand_built_dictionary() {
    let d = BencodeValue::Dictionary(vec![
        (b"zeta".to_vec(), BencodeValue::Integer(1)),
        (b"alpha".to_vec(), BencodeValue::Integer(2)),
        (b"mid".to_vec(), BencodeValue::Dictionary(vec![
            (b"b".to_vec(), BencodeValue::Integer(1)),
            (b"a".to_vec(), BencodeValue::Integer(2)),
        ])),
    ]);
    assert_eq!(encode(&d), b"d5:alphai2e3:midd1:ai2e1:bi1ee4:zetai1ee".to_vec());
}

#[test]
fn encode_keeps_last_of_repeated_key() {
    let d = BencodeValue::Dictionary(vec![
        (b"k".to_vec(), BencodeValue::Integer(1)),
        (b"a".to_vec(), BencodeValue::Integer(0)),
        (b"k".to_vec(), BencodeValue::Integer(2)),
    ]);
    assert_eq!(encode(&d), b"d1:ai0e1:ki2ee".to_vec());
}
