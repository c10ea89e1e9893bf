use vstd::prelude::*;
use crate::decode::{DecodeError, decode, parse_value};
use crate::encode::{encode, encode_value};
use crate::value::{Bencode, BencodeValue, dict_insert, entries_view};

verus! {

broadcast use vstd::std_specs::vec::group_vec_axioms;

/// Bytes in one piece digest.
pub const DIGEST_LEN: usize = 20;

/// A field of the torrent descriptor that is missing or of the wrong kind.
#[derive(Debug, Clone, Copy, PartialEq, Eq, Structural)]
pub enum Field {
    Document,
    Announce,
    Info,
    Length,
    Name,
    PieceLength,
    Pieces,
}

/// Why bytes are not a torrent descriptor.
#[derive(Debug, Clone, Copy, PartialEq, Eq, Structural)]
pub enum MetadataError {
    Decode(DecodeError),
    SchemaViolation(Field),
}

/// What a torrent descriptor says, with the info hash.
#[derive(Debug, PartialEq, Eq)]
pub struct TorrentMetadata {
    pub announce: Vec<u8>,
    pub length: i64,
    pub name: Vec<u8>,
    pub piece_length: i64,
    pub pieces: Vec<u8>,
    pub info_hash: Vec<u8>,
}

pub open spec fn key_announce() -> Seq<u8> {
    seq![97u8, 110, 110, 111, 117, 110, 99, 101]
}

pub open spec fn key_info() -> Seq<u8> {
    seq![105u8, 110, 102, 111]
}

pub open spec fn key_length() -> Seq<u8> {
    seq![108u8, 101, 110, 103, 116, 104]
}

pub open spec fn key_name() -> Seq<u8> {
    seq![110u8, 97, 109, 101]
}

pub open spec fn key_piece_length() -> Seq<u8> {
    seq![112u8, 105, 101, 99, 101, 32, 108, 101, 110, 103, 116, 104]
}

pub open spec fn key_pieces() -> Seq<u8> {
    seq![112u8, 105, 101, 99, 101, 115]
}

/// The value of the first entry with key `k`.
pub open spec fn lookup(es: Seq<(Seq<u8>, Bencode)>, k: Seq<u8>) -> Option<Bencode>
    decreases es.len(),
{
    if es.len() == 0 {
        None
    } else if es[0].0 == k {
        Some(es[0].1)
    } else {
        lookup(es.drop_first(), k)
    }
}

/// The entries of a dictionary, or none for another kind of value.
pub open spec fn dict_entries(v: Bencode) -> Seq<(Seq<u8>, Bencode)> {
    match v {
        Bencode::Dict(es) => es,
        _ => Seq::empty(),
    }
}

pub open spec fn field_is_bytes(es: Seq<(Seq<u8>, Bencode)>, k: Seq<u8>) -> bool {
    lookup(es, k) matches Some(Bencode::Bytes(_))
}

pub open spec fn field_is_int(es: Seq<(Seq<u8>, Bencode)>, k: Seq<u8>) -> bool {
    lookup(es, k) matches Some(Bencode::Int(_))
}

/// The `info` sub-dictionary of a descriptor.
pub open spec fn info_of(doc: Bencode) -> Bencode {
    lookup(dict_entries(doc), key_info())->Some_0
}

pub open spec fn info_entries(doc: Bencode) -> Seq<(Seq<u8>, Bencode)> {
    dict_entries(info_of(doc))
}

/// The first field, in schema order, that a descriptor lacks or holds with
/// the wrong kind; none when the descriptor fits the schema.
pub open spec fn schema_error(doc: Bencode) -> Option<Field> {
    if !(doc is Dict) {
        Some(Field::Document)
    } else if !field_is_bytes(dict_entries(doc), key_announce()) {
        Some(Field::Announce)
    } else if !(lookup(dict_entries(doc), key_info()) matches Some(Bencode::Dict(_))) {
        Some(Field::Info)
    } else if !field_is_int(info_entries(doc), key_length()) {
        Some(Field::Length)
    } else if !field_is_bytes(info_entries(doc), key_name()) {
        Some(Field::Name)
    } else if !field_is_int(info_entries(doc), key_piece_length()) {
        Some(Field::PieceLength)
    } else if !field_is_bytes(info_entries(doc), key_pieces()) || lookup(
        info_entries(doc),
        key_pieces(),
    )->Some_0->Bytes_0.len() % DIGEST_LEN as nat != 0 {
        Some(Field::Pieces)
    } else {
        None
    }
}

/// What the SHA-1 digest of the bytes is.
pub uninterp spec fn sha1_of(data: Seq<u8>) -> Seq<u8>;

/// Relies on sha1::Sha1 through digest::Digest::digest: the SHA-1 digest of
/// the bytes, which depends on them alone and is 20 bytes long.
#[verifier::external_body]
fn sha1_digest(data: &[u8]) -> (r: Vec<u8>)
    ensures
        r@ == sha1_of(data@),
        r@.len() == DIGEST_LEN,
{
    <sha1::Sha1 as sha1::Digest>::digest(data).to_vec()
}

/// The value of the first entry with key `key`.
pub fn lookup_entry<'a>(es: &'a Vec<(Vec<u8>, BencodeValue)>, key: &[u8]) -> (r: Option<
    &'a BencodeValue,
>)
    ensures
        match r {
            Some(x) => lookup(entries_view(es@), key@) == Some(x@),
            None => lookup(entries_view(es@), key@) is None,
        },
{
    let ghost ev = entries_view(es@);
    assert(ev.skip(0) =~= ev);
    let mut i: usize = 0;
    while i < es.len()
        invariant
            i <= es@.len(),
            ev == entries_view(es@),
            lookup(ev, key@) == lookup(ev.skip(i as int), key@),
        decreases es@.len() - i,
    {
        let ghost rest = ev.skip(i as int);
        assert(rest.drop_first() =~= ev.skip(i + 1));
        if es[i].0.len() == key.len() && bytes_equal(es[i].0.as_slice(), key) {
            return Some(&es[i].1);
        }
        i = i + 1;
    }
    None
}

fn bytes_equal(a: &[u8], b: &[u8]) -> (r: bool)
    ensures
        r == (a@ == b@),
{
    if a.len() != b.len() {
        return false;
    }
    let mut i: usize = 0;
    while i < a.len()
        invariant
            i <= a@.len() == b@.len(),
            a@.take(i as int) == b@.take(i as int),
        decreases a@.len() - i,
    {
        if a[i] != b[i] {
            assert(a@[i as int] != b@[i as int]);
            return false;
        }
        assert(a@.take(i + 1) =~= a@.take(i as int).push(a@[i as int]));
        assert(b@.take(i + 1) =~= b@.take(i as int).push(b@[i as int]));
        i = i + 1;
    }
    assert(a@.take(i as int) =~= a@);
    assert(b@.take(i as int) =~= b@);
    true
}


/// `m` holds what the descriptor `doc` says, and the digest of the canonical
/// encoding of its `info` sub-dictionary.
pub open spec fn metadata_matches(m: TorrentMetadata, doc: Bencode) -> bool {
    &&& m.announce@ == lookup(dict_entries(doc), key_announce())->Some_0->Bytes_0
    &&& m.length as int == lookup(info_entries(doc), key_length())->Some_0->Int_0
    &&& m.name@ == lookup(info_entries(doc), key_name())->Some_0->Bytes_0
    &&& m.piece_length as int == lookup(info_entries(doc), key_piece_length())->Some_0->Int_0
    &&& m.pieces@ == lookup(info_entries(doc), key_pieces())->Some_0->Bytes_0
    &&& m.info_hash@ == sha1_of(encode_value(info_of(doc)))
}

/// The SHA-1 digest of the canonical encoding of `info`.
pub fn info_hash(info: &BencodeValue) -> (r: Vec<u8>)
    ensures
        r@ == sha1_of(encode_value(info@)),
        r@.len() == DIGEST_LEN,
{
    let bytes = encode(info);
    sha1_digest(bytes.as_slice())
}

/// Projects a decoded descriptor onto the torrent schema and computes its
/// info hash.
pub fn extract_metadata(doc: &BencodeValue) -> (r: Result<TorrentMetadata, MetadataError>)
    ensures
        match schema_error(doc@) {
            Some(f) => r == Err::<TorrentMetadata, _>(MetadataError::SchemaViolation(f)),
            None => r matches Ok(m) && metadata_matches(m, doc@),
        },
{
    let es = match doc {
        BencodeValue::Dictionary(es) => es,
        _ => {
            return Err(MetadataError::SchemaViolation(Field::Document));
        },
    };
    assert(dict_entries(doc@) =~= entries_view(es@));
    let k_announce: [u8; 8] = [97u8, 110, 110, 111, 117, 110, 99, 101];
    assert(k_announce@ =~= key_announce());
    let announce = match lookup_entry(es, &k_announce) {
        Some(BencodeValue::ByteString(b)) => vstd::slice::slice_to_vec(b.as_slice()),
        _ => {
            return Err(MetadataError::SchemaViolation(Field::Announce));
        },
    };
    let k_info: [u8; 4] = [105u8, 110, 102, 111];
    assert(k_info@ =~= key_info());
    let info = match lookup_entry(es, &k_info) {
        Some(x) => x,
        None => {
            return Err(MetadataError::SchemaViolation(Field::Info));
        },
    };
    let ies = match info {
        BencodeValue::Dictionary(ies) => ies,
        _ => {
            return Err(MetadataError::SchemaViolation(Field::Info));
        },
    };
    assert(info_entries(doc@) =~= entries_view(ies@));
    let k_length: [u8; 6] = [108u8, 101, 110, 103, 116, 104];
    assert(k_length@ =~= key_length());
    let length = match lookup_entry(ies, &k_length) {
        Some(BencodeValue::Integer(n)) => *n,
        _ => {
            return Err(MetadataError::SchemaViolation(Field::Length));
        },
    };
    let k_name: [u8; 4] = [110u8, 97, 109, 101];
    assert(k_name@ =~= key_name());
    let name = match lookup_entry(ies, &k_name) {
        Some(BencodeValue::ByteString(b)) => vstd::slice::slice_to_vec(b.as_slice()),
        _ => {
            return Err(MetadataError::SchemaViolation(Field::Name));
        },
    };
    let k_piece_length: [u8; 12] = [112u8, 105, 101, 99, 101, 32, 108, 101, 110, 103, 116, 104];
    assert(k_piece_length@ =~= key_piece_length());
    let piece_length = match lookup_entry(ies, &k_piece_length) {
        Some(BencodeValue::Integer(n)) => *n,
        _ => {
            return Err(MetadataError::SchemaViolation(Field::PieceLength));
        },
    };
    let k_pieces: [u8; 6] = [112u8, 105, 101, 99, 101, 115];
    assert(k_pieces@ =~= key_pieces());
    let pieces = match lookup_entry(ies, &k_pieces) {
        Some(BencodeValue::ByteString(b)) => {
            if b.len() % DIGEST_LEN != 0 {
                return Err(MetadataError::SchemaViolation(Field::Pieces));
            }
            vstd::slice::slice_to_vec(b.as_slice())
        },
        _ => {
            return Err(MetadataError::SchemaViolation(Field::Pieces));
        },
    };
    let info_hash = info_hash(info);
    Ok(TorrentMetadata { announce, length, name, piece_length, pieces, info_hash })
}

/// Decodes a torrent descriptor and extracts its metadata. Bytes after the
/// descriptor's single top-level value are ignored.
pub fn parse_torrent(bytes: &[u8]) -> (r: Result<TorrentMetadata, MetadataError>)
    ensures
        match parse_value(bytes@, 0, 0) {
            Err(e) => r == Err::<TorrentMetadata, _>(MetadataError::Decode(e)),
            Ok((doc, _)) => match schema_error(doc) {
                Some(f) => r == Err::<TorrentMetadata, _>(MetadataError::SchemaViolation(f)),
                None => r matches Ok(m) && metadata_matches(m, doc),
            },
        },
{
    match decode(bytes) {
        Err(e) => Err(MetadataError::Decode(e)),
        Ok((doc, _)) => extract_metadata(&doc),
    }
}

/// The piece digests: `pieces` cut into consecutive chunks of `DIGEST_LEN`
/// bytes, in order; a shorter tail makes a last, shorter chunk.
pub fn piece_hashes(pieces: &[u8]) -> (r: Vec<Vec<u8>>)
    ensures
        r@.len() == (pieces@.len() + DIGEST_LEN - 1) / DIGEST_LEN as int,
        forall|i: int| 0 <= i < r@.len() ==> #[trigger] r@[i]@ == pieces@.subrange(
            i * DIGEST_LEN,
            if (i + 1) * DIGEST_LEN <= pieces@.len() {
                (i + 1) * DIGEST_LEN
            } else {
                pieces@.len() as int
            },
        ),
{
    let mut out: Vec<Vec<u8>> = Vec::new();
    let mut start: usize = 0;
    while start < pieces.len()
        invariant
            start <= pieces@.len(),
            (out@.len() * DIGEST_LEN <= pieces@.len() && start == out@.len() * DIGEST_LEN) || (
            start == pieces@.len() && pieces@.len() < out@.len() * DIGEST_LEN < pieces@.len()
                + DIGEST_LEN),
            forall|i: int| 0 <= i < out@.len() ==> #[trigger] out@[i]@ == pieces@.subrange(
                i * DIGEST_LEN,
                if (i + 1) * DIGEST_LEN <= pieces@.len() {
                    (i + 1) * DIGEST_LEN
                } else {
                    pieces@.len() as int
                },
            ),
        decreases pieces@.len() - start,
    {
        let end = if pieces.len() - start >= DIGEST_LEN {
            start + DIGEST_LEN
        } else {
            pieces.len()
        };
        let chunk = vstd::slice::slice_to_vec(vstd::slice::slice_subrange(pieces, start, end));
        proof {
            assert((out@.len() + 1) * DIGEST_LEN == start + DIGEST_LEN) by (nonlinear_arith)
                requires
                    start == out@.len() * DIGEST_LEN,
            ;
        }
        out.push(chunk);
        start = end;
    }
    proof {
        let n = out@.len() as int;
        assert((pieces@.len() + DIGEST_LEN - 1) / DIGEST_LEN as int == n) by (nonlinear_arith)
            requires
                (n * 20 <= pieces@.len() && pieces@.len() == n * 20) || (pieces@.len() < n * 20
                    < pieces@.len() + 20),
        ;
    }
    out
}

proof fn lemma_lookup_insert(es: Seq<(Seq<u8>, Bencode)>, k: Seq<u8>, v: Bencode, q: Seq<u8>)
    ensures
        lookup(dict_insert(es, k, v), q) == if q == k {
            Some(v)
        } else {
            lookup(es, q)
        },
    decreases es.len(),
{
    let r = dict_insert(es, k, v);
    if es.len() == 0 {
        assert(r[0] == (k, v));
        assert(r.drop_first() =~= Seq::<(Seq<u8>, Bencode)>::empty());
        assert(lookup(r, q) == if q == k { Some(v) } else { lookup(es, q) });
    } else if es[0].0 == k {
        assert(r[0] == (k, v));
        assert(r.drop_first() =~= es.drop_first());
        assert(lookup(r, q) == if q == k { Some(v) } else { lookup(es, q) });
    } else if crate::value::key_lt(k, es[0].0) {
        assert(r[0] == (k, v));
        assert(r.drop_first() =~= es);
        assert(lookup(r, q) == if q == k { Some(v) } else { lookup(es, q) });
    } else {
        assert(r[0] == es[0]);
        lemma_lookup_insert(es.drop_first(), k, v, q);
        assert(r.drop_first() =~= dict_insert(es.drop_first(), k, v));
        assert(lookup(r, q) == if q == k { Some(v) } else { lookup(es, q) });
    }
}

/// Replacing the tracker URL of a descriptor keeps it a valid descriptor and
/// leaves its info hash as it was.
pub proof fn lemma_info_hash_ignores_announce(
    es: Seq<(Seq<u8>, Bencode)>,
    url: Seq<u8>,
    m1: TorrentMetadata,
    m2: TorrentMetadata,
)
    requires
        schema_error(Bencode::Dict(es)) is None,
        metadata_matches(m1, Bencode::Dict(es)),
        metadata_matches(
            m2,
            Bencode::Dict(dict_insert(es, key_announce(), Bencode::Bytes(url))),
        ),
    ensures
        schema_error(Bencode::Dict(dict_insert(es, key_announce(), Bencode::Bytes(url)))) is None,
        m2.announce@ == url,
        m1.info_hash@ == m2.info_hash@,
{
    lemma_lookup_insert(es, key_announce(), Bencode::Bytes(url), key_announce());
    lemma_lookup_insert(es, key_announce(), Bencode::Bytes(url), key_info());
    assert(key_info() != key_announce()) by {
        assert(key_info().len() != key_announce().len());
    }
}

} // verus!
