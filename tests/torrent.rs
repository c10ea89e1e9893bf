use bencode_torrent::decode::{decode, DecodeError};
use bencode_torrent::encode::encode;
use bencode_torrent::torrent::{
    extract_metadata, info_hash, lookup_entry, parse_torrent, piece_hashes, Field, MetadataError,
};
use bencode_torrent::value::{dictionary_from_pairs, BencodeValue};
use sha1::{Digest, Sha1};

fn bytes(s: &[u8]) -> BencodeValue {
    BencodeValue::ByteString(s.to_vec())
}

fn info(length: i64, pieces: Vec<u8>) -> BencodeValue {
    dictionary_from_pairs(vec![
        (b"length".to_vec(), BencodeValue::Integer(length)),
        (b"name".to_vec(), bytes(b"f")),
        (b"piece length".to_vec(), BencodeValue::Integer(5)),
        (b"pieces".to_vec(), BencodeValue::ByteString(pieces)),
    ])
}

fn document(announce: &[u8], info: BencodeValue) -> BencodeValue {
    dictionary_from_pairs(vec![(b"announce".to_vec(), bytes(announce)), (b"info".to_vec(), info)])
}

fn twenty() -> Vec<u8> {
    (0u8..20).collect()
}

#[test]
fn minimal_torrent_extracts() {
    let inf = info(5, twenty());
    let doc = document(b"http://t/", info(5, twenty()));
    let m = parse_torrent(&encode(&doc)).unwrap();
    assert_eq!(m.announce, b"http://t/".to_vec());
    assert_eq!(m.length, 5);
    assert_eq!(m.name, b"f".to_vec());
    assert_eq!(m.piece_length, 5);
    assert_eq!(m.pieces, twenty());
    let expected = Sha1::digest(encode(&inf)).to_vec();
    assert_eq!(m.info_hash, expected);
    assert_eq!(m.info_hash.len(), 20);
}

#[test]
fn info_hash_ignores_announce() {
    let a = extract_metadata(&document(b"http://t/", info(5, twenty()))).unwrap();
    let b = extract_metadata(&document(b"http://other/", info(5, twenty()))).unwrap();
    assert_eq!(a.info_hash, b.info_hash);
}

#[test]
fn info_hash_follows_length() {
    let a = extract_metadata(&document(b"http://t/", info(5, twenty()))).unwrap();
    let b = extract_metadata(&document(b"http://t/", info(6, twenty()))).unwrap();
    assert_ne!(a.info_hash, b.info_hash);
}

#[test]
fn info_hash_is_digest_of_encoding() {
    let inf = info(5, twenty());
    let h = info_hash(&inf);
    assert_ne!(h, encode(&inf));
    assert_eq!(
        hex::encode(info_hash(&bytes(b""))),
        hex::encode(Sha1::digest(b"0:"))
    );
}

#[test]
fn info_hash_uses_canonical_key_order() {
    let raw = b"d6:pieces0:4:name1:f6:lengthi5e12:piece lengthi5ee";
    let (v, _) = decode(raw).unwrap();
    let canonical = b"d6:lengthi5e4:name1:f12:piece lengthi5e6:pieces0:e";
    assert_eq!(info_hash(&v), Sha1::digest(canonical).to_vec());
}

#[test]
fn schema_violations_name_the_field() {
    let err = |v: &BencodeValue| extract_metadata(v).unwrap_err();
    assert_eq!(err(&BencodeValue::Integer(1)), MetadataError::SchemaViolation(Field::Document));
    let no_announce = dictionary_from_pairs(vec![(b"info".to_vec(), info(5, twenty()))]);
    assert_eq!(err(&no_announce), MetadataError::SchemaViolation(Field::Announce));
    let int_info = document(b"u", BencodeValue::Integer(3));
    assert_eq!(err(&int_info), MetadataError::SchemaViolation(Field::Info));
    let no_length = document(
        b"u",
        dictionary_from_pairs(vec![(b"name".to_vec(), bytes(b"f"))]),
    );
    assert_eq!(err(&no_length), MetadataError::SchemaViolation(Field::Length));
    let int_name = document(
        b"u",
        dictionary_from_pairs(vec![
            (b"length".to_vec(), BencodeValue::Integer(1)),
            (b"name".to_vec(), BencodeValue::Integer(1)),
        ]),
    );
    assert_eq!(err(&int_name), MetadataError::SchemaViolation(Field::Name));
    let no_piece_length = document(
        b"u",
        dictionary_from_pairs(vec![
            (b"length".to_vec(), BencodeValue::Integer(1)),
            (b"name".to_vec(), bytes(b"f")),
        ]),
    );
    assert_eq!(err(&no_piece_length), MetadataError::SchemaViolation(Field::PieceLength));
    let bad_pieces = document(b"u", info(5, vec![1, 2, 3]));
    assert_eq!(err(&bad_pieces), MetadataError::SchemaViolation(Field::Pieces));
}

#[test]
fn decode_errors_pass_through() {
    assert_eq!(
        parse_torrent(b"d8:announce3:url"),
        Err(MetadataError::Decode(DecodeError::TruncatedInput))
    );
}

#[test]
fn pieces_split_into_digests() {
    let mut p = twenty();
    p.extend(vec![7u8; 20]);
    let hs = piece_hashes(&p);
    assert_eq!(hs.len(), 2);
    assert_eq!(hs[0], twenty());
    assert_eq!(hs[1], vec![7u8; 20]);
    assert!(piece_hashes(&[]).is_empty());
    let odd = piece_hashes(&[1, 2, 3]);
    assert_eq!(odd, vec![vec![1, 2, 3]]);
}

#[test]
fn lookup_finds_entries_by_key() {
    let es = vec![
        (b"a".to_vec(), BencodeValue::Integer(1)),
        (b"b".to_vec(), BencodeValue::Integer(2)),
    ];
    assert_eq!(lookup_entry(&es, b"b"), Some(&BencodeValue::Integer(2)));
    assert_eq!(lookup_entry(&es, b"c"), None);
    assert_eq!(lookup_entry(&es, b""), None);
}
