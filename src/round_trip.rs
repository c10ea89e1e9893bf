use vstd::prelude::*;
use crate::decode::{
    DecodeError, MAX_DEPTH, all_digits, digits_value, find_from, fits_i64, int_text_value,
    is_digit, parse_dict_items, parse_list_items, parse_value,
};
use crate::encode::{dec_digits, encode_bytes, encode_entries, encode_items, encode_value, int_text};
use crate::value::{
    Bencode, dict_from_pairs, distinct_keys, key_lt, lemma_from_pairs, lemma_from_pairs_subset,
    lemma_insert_split, lemma_insertion_order_irrelevant, sorted_keys, well_formed,
};

verus! {

/// The value fits what decoding accepts when `depth` containers enclose it:
/// integers fit in 64 bits, lengths in `usize`, and containers nest no
/// deeper than `MAX_DEPTH`.
pub open spec fn within_limits(v: Bencode, depth: nat) -> bool
    decreases v,
{
    match v {
        Bencode::Bytes(b) => b.len() <= usize::MAX,
        Bencode::Int(n) => fits_i64(n),
        Bencode::List(items) => depth < MAX_DEPTH && forall|i: int|
            0 <= i < items.len() ==> within_limits(#[trigger] items[i], depth + 1),
        Bencode::Dict(es) => depth < MAX_DEPTH && forall|i: int|
            0 <= i < es.len() ==> (#[trigger] es[i]).0.len() <= usize::MAX && within_limits(
                es[i].1,
                depth + 1,
            ),
    }
}

proof fn lemma_dec_digits(n: nat)
    ensures
        all_digits(dec_digits(n)),
        digits_value(dec_digits(n)) == n,
        dec_digits(n).len() >= 1,
        n > 0 ==> dec_digits(n)[0] != 0x30,
        n == 0 ==> dec_digits(n) == seq![0x30u8],
    decreases n,
{
    let d = dec_digits(n);
    if n < 10 {
        assert(d.drop_last() =~= Seq::<u8>::empty());
        assert(d.last() == 0x30 + n);
        assert(digits_value(d.drop_last()) == 0);
        assert(digits_value(d) == digits_value(d.drop_last()) * 10 + (d.last() - 0x30) as nat);
    } else {
        assert(d.last() == 0x30 + n % 10);
        lemma_dec_digits(n / 10);
        let h = dec_digits(n / 10);
        assert(d.drop_last() =~= h);
        assert(d[0] == h[0]);
        assert(n / 10 * 10 + n % 10 == n);
        assert(digits_value(d) == digits_value(d.drop_last()) * 10 + (d.last() - 0x30) as nat);
        assert(digits_value(h) == n / 10);
        assert forall|i: int| 0 <= i < d.len() implies is_digit(#[trigger] d[i]) by {
            if i < h.len() {
                assert(d[i] == h[i]);
            }
        }
    }
}

proof fn lemma_find_at(s: Seq<u8>, start: int, c: int, b: u8)
    requires
        0 <= start <= c < s.len(),
        s[c] == b,
        forall|j: int| start <= j < c ==> s[j] != b,
    ensures
        find_from(s, start, b) == Some(c),
    decreases c - start,
{
    if start < c {
        lemma_find_at(s, start + 1, c, b);
    }
}

proof fn lemma_encoding_starts(v: Bencode)
    ensures
        encode_value(v).len() >= 1,
        encode_value(v)[0] != 0x65,
{
    match v {
        Bencode::Bytes(b) => {
            lemma_dec_digits(b.len());
            assert(encode_value(v)[0] == dec_digits(b.len())[0]);
        },
        _ => {},
    }
}

proof fn lemma_items_front(items: Seq<Bencode>)
    requires
        items.len() > 0,
    ensures
        encode_items(items) == encode_value(items[0]) + encode_items(items.drop_first()),
    decreases items.len(),
{
    if items.len() == 1 {
        assert(items.drop_last() =~= Seq::<Bencode>::empty());
        assert(items.drop_first() =~= Seq::<Bencode>::empty());
        assert(encode_items(items) =~= encode_value(items[0]) + encode_items(items.drop_first()));
    } else {
        let init = items.drop_last();
        lemma_items_front(init);
        assert(init.drop_first() =~= items.drop_first().drop_last());
        assert(items.drop_first().last() == items.last());
        assert(encode_items(items) =~= encode_value(items[0]) + encode_items(items.drop_first()));
    }
}

proof fn lemma_entries_front(es: Seq<(Seq<u8>, Bencode)>)
    requires
        es.len() > 0,
    ensures
        encode_entries(es) == encode_bytes(es[0].0) + encode_value(es[0].1) + encode_entries(
            es.drop_first(),
        ),
    decreases es.len(),
{
    if es.len() == 1 {
        assert(es.drop_last() =~= Seq::<(Seq<u8>, Bencode)>::empty());
        assert(es.drop_first() =~= Seq::<(Seq<u8>, Bencode)>::empty());
        assert(encode_entries(es) =~= encode_bytes(es[0].0) + encode_value(es[0].1)
            + encode_entries(es.drop_first()));
    } else {
        let init = es.drop_last();
        lemma_entries_front(init);
        assert(init.drop_first() =~= es.drop_first().drop_last());
        assert(es.drop_first().last() == es.last());
        assert(encode_entries(es) =~= encode_bytes(es[0].0) + encode_value(es[0].1)
            + encode_entries(es.drop_first()));
    }
}

/// A sorted dictionary is what putting its entries in, in order, builds.
proof fn lemma_from_sorted_pairs(es: Seq<(Seq<u8>, Bencode)>)
    requires
        sorted_keys(es),
    ensures
        dict_from_pairs(es) == es,
    decreases es.len(),
{
    if es.len() > 0 {
        let init = es.drop_last();
        assert(sorted_keys(init)) by {
            assert forall|i: int, j: int| 0 <= i < j < init.len() implies key_lt(
                #[trigger] init[i].0,
                #[trigger] init[j].0,
            ) by {
                assert(init[i] == es[i] && init[j] == es[j]);
            }
        }
        lemma_from_sorted_pairs(init);
        assert forall|i: int| 0 <= i < init.len() implies key_lt(
            #[trigger] init[i].0,
            es.last().0,
        ) by {
            assert(init[i] == es[i]);
        }
        lemma_insert_split(init, es.last().0, es.last().1, init.len() as int);
        assert(init.take(init.len() as int) + seq![(es.last().0, es.last().1)] + init.skip(
            init.len() as int,
        ) =~= es);
    }
}

proof fn lemma_parse_bytes(s: Seq<u8>, pos: int, b: Seq<u8>, depth: nat)
    requires
        0 <= pos,
        pos + encode_bytes(b).len() <= s.len(),
        s.subrange(pos, pos + encode_bytes(b).len()) == encode_bytes(b),
        b.len() <= usize::MAX,
    ensures
        parse_value(s, pos, depth) == Ok::<_, DecodeError>(
            (Bencode::Bytes(b), pos + encode_bytes(b).len()),
        ),
{
    let e = encode_bytes(b);
    let d = dec_digits(b.len());
    lemma_dec_digits(b.len());
    let colon = pos + d.len();
    assert(s[pos] == e[0]);
    assert(e[0] == d[0]);
    assert forall|j: int| pos <= j < colon implies s[j] != 0x3a by {
        assert(s[j] == e[j - pos]);
        assert(e[j - pos] == d[j - pos]);
        assert(is_digit(d[j - pos]));
    }
    assert(s[colon] == e[d.len() as int]);
    lemma_find_at(s, pos, colon, 0x3a);
    assert(s.subrange(pos, colon) =~= d);
    assert(s.subrange(colon + 1, colon + 1 + b.len()) =~= b) by {
        assert forall|j: int| 0 <= j < b.len() implies #[trigger] s.subrange(
            colon + 1,
            colon + 1 + b.len(),
        )[j] == b[j] by {
            assert(s[colon + 1 + j] == e[d.len() + 1 + j]);
        }
    }
}

/// Decoding at `pos`, where the encoding of `v` stands in `s`, gives `v`
/// and ends just past that encoding.
proof fn lemma_parse_encoded(s: Seq<u8>, pos: int, v: Bencode, depth: nat)
    requires
        0 <= pos,
        pos + encode_value(v).len() <= s.len(),
        s.subrange(pos, pos + encode_value(v).len()) == encode_value(v),
        well_formed(v),
        within_limits(v, depth),
    ensures
        parse_value(s, pos, depth) == Ok::<_, DecodeError>((v, pos + encode_value(v).len())),
    decreases v, 2nat,
{
    let e = encode_value(v);
    assert(s[pos] == e[0]);
    match v {
        Bencode::Bytes(b) => {
            lemma_parse_bytes(s, pos, b, depth);
        },
        Bencode::Int(n) => {
            let t = int_text(n);
            let m: nat = if n < 0 {
                (-n) as nat
            } else {
                n as nat
            };
            lemma_dec_digits(m);
            let d = dec_digits(m);
            assert forall|j: int| pos + 1 <= j < pos + 1 + t.len() implies s[j] != 0x65 by {
                assert(s[j] == e[j - pos]);
                assert(e[j - pos] == t[j - pos - 1]);
                if n < 0 && j > pos + 1 {
                    assert(t[j - pos - 1] == d[j - pos - 2]);
                    assert(is_digit(d[j - pos - 2]));
                } else if n >= 0 {
                    assert(is_digit(d[j - pos - 1]));
                }
            }
            assert(s[pos + 1 + t.len()] == e[t.len() + 1int]);
            lemma_find_at(s, pos + 1, pos + 1 + t.len(), 0x65);
            assert(s.subrange(pos + 1, pos + 1 + t.len()) =~= t) by {
                assert forall|j: int| 0 <= j < t.len() implies #[trigger] s.subrange(
                    pos + 1,
                    pos + 1 + t.len(),
                )[j] == t[j] by {
                    assert(s[pos + 1 + j] == e[1 + j]);
                }
            }
            if n < 0 {
                assert(t.drop_first() =~= d);
                assert(t[0] == 0x2d);
                assert(t != seq![0x30u8]) by {
                    assert(seq![0x30u8][0] == 0x30);
                }
                assert(t[1] == d[0]);
            } else if n > 0 {
                assert(t != seq![0x30u8]) by {
                    if t == seq![0x30u8] {
                        assert(t.drop_last() =~= Seq::<u8>::empty());
                    }
                }
                assert(is_digit(t[0]));
            }
            assert(int_text_value(t) == Some(n));
        },
        Bencode::List(items) => {
            let body = encode_items(items);
            assert(s.subrange(pos + 1, pos + 1 + body.len()) =~= body) by {
                assert forall|j: int| 0 <= j < body.len() implies #[trigger] s.subrange(
                    pos + 1,
                    pos + 1 + body.len(),
                )[j] == body[j] by {
                    assert(s[pos + 1 + j] == e[1 + j]);
                }
            }
            assert(s[pos + 1 + body.len()] == e[1int + body.len()]);
            assert forall|i: int| 0 <= i < items.len() implies well_formed(#[trigger] items[i])
                && within_limits(items[i], depth + 1) by {}
            lemma_parse_items(s, pos + 1, items, depth + 1);
        },
        Bencode::Dict(es) => {
            lemma_from_sorted_pairs(es);
            crate::encode::lemma_encode_dict(es);
            let body = encode_entries(es);
            assert(e == seq![0x64u8] + body + seq![0x65u8]);
            assert(s.subrange(pos + 1, pos + 1 + body.len()) =~= body) by {
                assert forall|j: int| 0 <= j < body.len() implies #[trigger] s.subrange(
                    pos + 1,
                    pos + 1 + body.len(),
                )[j] == body[j] by {
                    assert(s[pos + 1 + j] == e[1 + j]);
                }
            }
            assert(s[pos + 1 + body.len()] == e[1int + body.len()]);
            lemma_parse_entries(s, pos + 1, es, depth + 1);
        },
    }
}

proof fn lemma_parse_items(s: Seq<u8>, p: int, items: Seq<Bencode>, depth: nat)
    requires
        0 <= p,
        p + encode_items(items).len() < s.len(),
        s.subrange(p, p + encode_items(items).len()) == encode_items(items),
        s[p + encode_items(items).len()] == 0x65,
        forall|i: int| 0 <= i < items.len() ==> well_formed(#[trigger] items[i]) && within_limits(items[i], depth),
    ensures
        parse_list_items(s, p, depth) == Ok::<_, DecodeError>(
            (items, p + encode_items(items).len() + 1),
        ),
    decreases items, 1nat,
{
    if items.len() == 0 {
        assert(items =~= Seq::<Bencode>::empty());
    } else {
        lemma_items_front(items);
        let e0 = encode_value(items[0]);
        let rest = items.drop_first();
        let er = encode_items(rest);
        let all = encode_items(items);
        lemma_encoding_starts(items[0]);
        assert(s[p] == all[0]);
        assert(s.subrange(p, p + e0.len()) =~= e0) by {
            assert forall|j: int| 0 <= j < e0.len() implies #[trigger] s.subrange(p, p + e0.len())[j]
                == e0[j] by {
                assert(s[p + j] == all[j]);
            }
        }
        lemma_parse_encoded(s, p, items[0], depth);
        assert(s.subrange(p + e0.len(), p + e0.len() + er.len()) =~= er) by {
            assert forall|j: int| 0 <= j < er.len() implies #[trigger] s.subrange(
                p + e0.len(),
                p + e0.len() + er.len(),
            )[j] == er[j] by {
                assert(s[p + e0.len() + j] == all[e0.len() + j]);
            }
        }
        assert forall|i: int| 0 <= i < rest.len() implies well_formed(#[trigger] rest[i])
            && within_limits(rest[i], depth) by {
            assert(rest[i] == items[i + 1]);
        }
        lemma_parse_items(s, p + e0.len(), rest, depth);
        assert(seq![items[0]] + rest =~= items);
    }
}

proof fn lemma_parse_entries(s: Seq<u8>, p: int, es: Seq<(Seq<u8>, Bencode)>, depth: nat)
    requires
        0 <= p,
        p + encode_entries(es).len() < s.len(),
        s.subrange(p, p + encode_entries(es).len()) == encode_entries(es),
        s[p + encode_entries(es).len()] == 0x65,
        forall|i: int| 0 <= i < es.len() ==> (#[trigger] es[i]).0.len() <= usize::MAX && well_formed(es[i].1) && within_limits(es[i].1, depth),
    ensures
        parse_dict_items(s, p, depth) == Ok::<_, DecodeError>(
            (es, p + encode_entries(es).len() + 1),
        ),
    decreases es, 1nat,
{
    if es.len() == 0 {
        assert(es =~= Seq::<(Seq<u8>, Bencode)>::empty());
    } else {
        lemma_entries_front(es);
        let ek = encode_bytes(es[0].0);
        let ev = encode_value(es[0].1);
        let rest = es.drop_first();
        let er = encode_entries(rest);
        let all = encode_entries(es);
        lemma_dec_digits(es[0].0.len());
        assert(s[p] == all[0]);
        assert(all[0] == ek[0]);
        assert(ek[0] == dec_digits(es[0].0.len())[0]);
        assert(s.subrange(p, p + ek.len()) =~= ek) by {
            assert forall|j: int| 0 <= j < ek.len() implies #[trigger] s.subrange(p, p + ek.len())[j]
                == ek[j] by {
                assert(s[p + j] == all[j]);
            }
        }
        lemma_parse_bytes(s, p, es[0].0, depth);
        let q = p + ek.len();
        assert(s.subrange(q, q + ev.len()) =~= ev) by {
            assert forall|j: int| 0 <= j < ev.len() implies #[trigger] s.subrange(q, q + ev.len())[j]
                == ev[j] by {
                assert(s[q + j] == all[ek.len() + j]);
            }
        }
        lemma_parse_encoded(s, q, es[0].1, depth);
        let r = q + ev.len();
        assert(s.subrange(r, r + er.len()) =~= er) by {
            assert forall|j: int| 0 <= j < er.len() implies #[trigger] s.subrange(r, r + er.len())[j]
                == er[j] by {
                assert(s[r + j] == all[ek.len() + ev.len() + j]);
            }
        }
        assert forall|i: int| 0 <= i < rest.len() implies (#[trigger] rest[i]).0.len() <= usize::MAX
            && well_formed(rest[i].1) && within_limits(rest[i].1, depth) by {
            assert(rest[i] == es[i + 1]);
        }
        lemma_encoding_starts(es[0].1);
        lemma_parse_entries(s, r, rest, depth);
        assert(seq![(es[0].0, es[0].1)] + rest =~= es);
    }
}

/// Decoding the canonical encoding of a well-formed value within the
/// decoder's limits gives the value back and consumes the whole encoding.
pub proof fn lemma_round_trip(v: Bencode)
    requires
        well_formed(v),
        within_limits(v, 0),
    ensures
        parse_value(encode_value(v), 0, 0) == Ok::<_, DecodeError>((v, encode_value(v).len() as int)),
{
    let e = encode_value(v);
    assert(e.subrange(0, e.len() as int) =~= e);
    lemma_parse_encoded(e, 0, v, 0);
}

/// Two well-formed values within the decoder's limits that encode alike are
/// equal: the canonical encoding tells values apart.
pub proof fn lemma_encoding_injective(v1: Bencode, v2: Bencode)
    requires
        well_formed(v1),
        within_limits(v1, 0),
        well_formed(v2),
        within_limits(v2, 0),
        encode_value(v1) == encode_value(v2),
    ensures
        v1 == v2,
{
    lemma_round_trip(v1);
    lemma_round_trip(v2);
}

/// Two dictionaries that hold the same entries, no key twice, in any order,
/// encode to the same bytes, in which the entries come sorted by key.
pub proof fn lemma_dictionary_encoding_deterministic(
    p1: Seq<(Seq<u8>, Bencode)>,
    p2: Seq<(Seq<u8>, Bencode)>,
)
    requires
        distinct_keys(p1),
        distinct_keys(p2),
        forall|e: (Seq<u8>, Bencode)|
            #![trigger p1.contains(e)]
            #![trigger p2.contains(e)]
            p1.contains(e) <==> p2.contains(e),
    ensures
        encode_value(Bencode::Dict(p1)) == encode_value(Bencode::Dict(p2)),
        encode_value(Bencode::Dict(p1)) == seq![0x64u8] + encode_entries(dict_from_pairs(p1))
            + seq![0x65u8],
        sorted_keys(dict_from_pairs(p1)),
{
    lemma_insertion_order_irrelevant(p1, p2);
    lemma_from_pairs(p1);
    crate::encode::lemma_encode_dict(p1);
    crate::encode::lemma_encode_dict(p2);
}

proof fn lemma_value_within_limits(s: Seq<u8>, pos: int, depth: nat)
    ensures
        parse_value(s, pos, depth) matches Ok((v, _)) ==> within_limits(v, depth),
    decreases s.len() - pos, 0nat,
{
    if 0 <= pos < s.len() && is_digit(s[pos]) {
        crate::decode::lemma_find_from(s, pos, 0x3a);
    }
    if 0 <= pos < s.len() && !is_digit(s[pos]) && s[pos] != 0x69 && depth < MAX_DEPTH {
        if s[pos] == 0x6c {
            lemma_list_within_limits(s, pos + 1, depth + 1);
        } else if s[pos] == 0x64 {
            lemma_dict_within_limits(s, pos + 1, depth + 1);
            if let Ok((pairs, _)) = parse_dict_items(s, pos + 1, depth + 1) {
                let d = dict_from_pairs(pairs);
                lemma_from_pairs_subset(pairs);
                assert forall|i: int| 0 <= i < d.len() implies (#[trigger] d[i]).0.len()
                    <= usize::MAX && within_limits(d[i].1, depth + 1) by {
                    assert(d.contains(d[i]));
                    let j = choose|j: int| 0 <= j < pairs.len() && pairs[j] == d[i];
                }
            }
        }
    }
}

proof fn lemma_list_within_limits(s: Seq<u8>, pos: int, depth: nat)
    ensures
        parse_list_items(s, pos, depth) matches Ok((items, _)) ==> forall|i: int|
            0 <= i < items.len() ==> within_limits(#[trigger] items[i], depth),
    decreases s.len() - pos, 1nat,
{
    if 0 <= pos < s.len() && s[pos] != 0x65 {
        lemma_value_within_limits(s, pos, depth);
        if let Ok((v, q)) = parse_value(s, pos, depth) {
            if pos < q <= s.len() {
                lemma_list_within_limits(s, q, depth);
                if let Ok((rest, _)) = parse_list_items(s, q, depth) {
                    let items = seq![v] + rest;
                    assert forall|i: int| 0 <= i < items.len() implies within_limits(
                        #[trigger] items[i],
                        depth,
                    ) by {
                        if i > 0 {
                            assert(items[i] == rest[i - 1]);
                        }
                    }
                }
            }
        }
    }
}

proof fn lemma_dict_within_limits(s: Seq<u8>, pos: int, depth: nat)
    ensures
        parse_dict_items(s, pos, depth) matches Ok((pairs, _)) ==> forall|i: int|
            0 <= i < pairs.len() ==> (#[trigger] pairs[i]).0.len() <= usize::MAX
                && within_limits(pairs[i].1, depth),
    decreases s.len() - pos, 1nat,
{
    if 0 <= pos < s.len() && s[pos] != 0x65 {
        lemma_value_within_limits(s, pos, depth);
        if let Ok((Bencode::Bytes(k), q)) = parse_value(s, pos, depth) {
            if pos < q <= s.len() {
                lemma_value_within_limits(s, q, depth);
                if let Ok((v, r)) = parse_value(s, q, depth) {
                    if q < r <= s.len() {
                        lemma_dict_within_limits(s, r, depth);
                        if let Ok((rest, _)) = parse_dict_items(s, r, depth) {
                            let pairs = seq![(k, v)] + rest;
                            assert forall|i: int| 0 <= i < pairs.len() implies (
                            #[trigger] pairs[i]).0.len() <= usize::MAX && within_limits(
                                pairs[i].1,
                                depth,
                            ) by {
                                if i > 0 {
                                    assert(pairs[i] == rest[i - 1]);
                                }
                            }
                        }
                    }
                }
            }
        }
    }
}

/// For every value that decoding produces, decoding its encoding gives the
/// same value back and consumes the whole encoding.
pub proof fn lemma_decoded_round_trip(s: Seq<u8>)
    requires
        parse_value(s, 0, 0) is Ok,
    ensures
        parse_value(encode_value(parse_value(s, 0, 0)->Ok_0.0), 0, 0) == Ok::<_, DecodeError>(
            (
                parse_value(s, 0, 0)->Ok_0.0,
                encode_value(parse_value(s, 0, 0)->Ok_0.0).len() as int,
            ),
        ),
{
    crate::decode::lemma_decoded_well_formed(s);
    lemma_value_within_limits(s, 0, 0);
    lemma_round_trip(parse_value(s, 0, 0)->Ok_0.0);
}

} // verus!
