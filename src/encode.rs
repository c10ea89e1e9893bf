use vstd::prelude::*;
use crate::value::{
    Bencode, BencodeValue, dict_from_pairs, dict_insert, entries_view, key_less, key_lt,
    lemma_from_pairs_subset, lemma_insert_split, lemma_key_order,
};

verus! {

broadcast use vstd::std_specs::vec::group_vec_axioms;

/// The ASCII decimal digits of `n`, with no leading zero.
pub open spec fn dec_digits(n: nat) -> Seq<u8>
    decreases n,
{
    if n < 10 {
        seq![(0x30 + n) as u8]
    } else {
        dec_digits(n / 10).push((0x30 + n % 10) as u8)
    }
}

/// The decimal text of an integer: a `-` before the digits of a negative one.
pub open spec fn int_text(n: int) -> Seq<u8> {
    if n < 0 {
        seq![0x2du8] + dec_digits((-n) as nat)
    } else {
        dec_digits(n as nat)
    }
}

/// A byte string's encoding: its length in decimal, `:`, the bytes.
pub open spec fn encode_bytes(b: Seq<u8>) -> Seq<u8> {
    dec_digits(b.len()) + seq![0x3au8] + b
}

/// Each entry's key, tagged with the entry's position.
pub open spec fn tag_positions(es: Seq<(Seq<u8>, Bencode)>) -> Seq<(Seq<u8>, Bencode)> {
    Seq::new(es.len(), |j: int| (es[j].0, Bencode::Int(j)))
}

/// The order in which a dictionary's entries are written: by ascending raw
/// byte order of keys, and of entries with one key only the last.
pub open spec fn canonical_order(es: Seq<(Seq<u8>, Bencode)>) -> Seq<(Seq<u8>, Bencode)> {
    dict_from_pairs(tag_positions(es))
}

/// The canonical bencoding of a value. A dictionary's entries are written
/// sorted by key, whatever order they are held in.
pub open spec fn encode_value(v: Bencode) -> Seq<u8>
    decreases v, 1nat, 0nat,
{
    match v {
        Bencode::Bytes(b) => encode_bytes(b),
        Bencode::Int(n) => seq![0x69u8] + int_text(n) + seq![0x65u8],
        Bencode::List(items) => seq![0x6cu8] + encode_items(items) + seq![0x65u8],
        Bencode::Dict(es) => seq![0x64u8] + encode_tagged(es, canonical_order(es)) + seq![0x65u8],
    }
}

/// The encodings of `items`, one after the other.
pub open spec fn encode_items(items: Seq<Bencode>) -> Seq<u8>
    decreases items, 0nat, 0nat,
{
    if items.len() == 0 {
        Seq::empty()
    } else {
        encode_items(items.drop_last()) + encode_value(items.last())
    }
}

/// The entries of `es` that the tags in `ts` point at, each key's encoding
/// followed by its value's, in the order of `ts`.
pub open spec fn encode_tagged(es: Seq<(Seq<u8>, Bencode)>, ts: Seq<(Seq<u8>, Bencode)>) -> Seq<u8>
    decreases es, 0nat, ts.len(),
{
    if ts.len() == 0 {
        Seq::empty()
    } else {
        let j = ts.last().1->Int_0;
        encode_tagged(es, ts.drop_last()) + encode_bytes(ts.last().0) + if 0 <= j < es.len() {
            encode_value(es[j].1)
        } else {
            Seq::empty()
        }
    }
}

/// Each key's encoding followed by its value's, entry after entry.
pub open spec fn encode_entries(es: Seq<(Seq<u8>, Bencode)>) -> Seq<u8>
    decreases es,
{
    if es.len() == 0 {
        Seq::empty()
    } else {
        encode_entries(es.drop_last()) + encode_bytes(es.last().0) + encode_value(
            es.last().1,
        )
    }
}


/// The entries that tags point at: each tag's key with the value of the
/// entry at its position.
pub open spec fn untag(es: Seq<(Seq<u8>, Bencode)>, ts: Seq<(Seq<u8>, Bencode)>) -> Seq<
    (Seq<u8>, Bencode),
> {
    Seq::new(ts.len(), |i: int| (ts[i].0, es[ts[i].1->Int_0].1))
}

proof fn lemma_untag_insert(
    es: Seq<(Seq<u8>, Bencode)>,
    ts: Seq<(Seq<u8>, Bencode)>,
    k: Seq<u8>,
    t: Bencode,
)
    ensures
        untag(es, dict_insert(ts, k, t)) == dict_insert(untag(es, ts), k, es[t->Int_0].1),
    decreases ts.len(),
{
    let u = untag(es, ts);
    let r = dict_insert(ts, k, t);
    if ts.len() == 0 {
        assert(untag(es, r) =~= dict_insert(u, k, es[t->Int_0].1));
    } else {
        assert(u[0].0 == ts[0].0);
        if ts[0].0 == k {
            assert(untag(es, r) =~= dict_insert(u, k, es[t->Int_0].1)) by {
                assert(u.drop_first() =~= untag(es, ts.drop_first()));
            }
        } else if key_lt(k, ts[0].0) {
            assert(untag(es, r) =~= dict_insert(u, k, es[t->Int_0].1));
        } else {
            lemma_untag_insert(es, ts.drop_first(), k, t);
            assert(u.drop_first() =~= untag(es, ts.drop_first()));
            assert(untag(es, r) =~= dict_insert(u, k, es[t->Int_0].1)) by {
                let rest = dict_insert(ts.drop_first(), k, t);
                assert(r == seq![ts[0]] + rest);
                assert(untag(es, r) =~= seq![u[0]] + untag(es, rest));
            }
        }
    }
}

proof fn lemma_untag_from_pairs(es: Seq<(Seq<u8>, Bencode)>, ps: Seq<(Seq<u8>, Bencode)>)
    ensures
        untag(es, dict_from_pairs(ps)) == dict_from_pairs(untag(es, ps)),
    decreases ps.len(),
{
    if ps.len() == 0 {
        assert(untag(es, dict_from_pairs(ps)) =~= dict_from_pairs(untag(es, ps)));
    } else {
        let init = ps.drop_last();
        lemma_untag_from_pairs(es, init);
        lemma_untag_insert(es, dict_from_pairs(init), ps.last().0, ps.last().1);
        assert(untag(es, ps).drop_last() =~= untag(es, init));
    }
}

proof fn lemma_encode_tagged(es: Seq<(Seq<u8>, Bencode)>, ts: Seq<(Seq<u8>, Bencode)>)
    requires
        forall|i: int| 0 <= i < ts.len() ==> 0 <= (#[trigger] ts[i]).1->Int_0 < es.len(),
    ensures
        encode_tagged(es, ts) == encode_entries(untag(es, ts)),
    decreases ts.len(),
{
    if ts.len() > 0 {
        let init = ts.drop_last();
        assert forall|i: int| 0 <= i < init.len() implies 0 <= (#[trigger] init[i]).1->Int_0
            < es.len() by {
            assert(init[i] == ts[i]);
        }
        lemma_encode_tagged(es, init);
        assert(untag(es, ts).drop_last() =~= untag(es, init));
        assert(ts[ts.len() - 1] == ts.last());
    }
}

/// Every tag of the canonical order points at an entry.
pub proof fn lemma_canonical_order_in_range(es: Seq<(Seq<u8>, Bencode)>)
    ensures
        forall|i: int|
            0 <= i < canonical_order(es).len() ==> (#[trigger] canonical_order(es)[i]).1 is Int
                && 0 <= canonical_order(es)[i].1->Int_0 < es.len()
                && canonical_order(es)[i].0 == es[canonical_order(es)[i].1->Int_0].0,
{
    let c = canonical_order(es);
    let t = tag_positions(es);
    lemma_from_pairs_subset(t);
    assert forall|i: int| 0 <= i < c.len() implies (#[trigger] c[i]).1 is Int && 0 <= c[i].1->Int_0
        < es.len() && c[i].0 == es[c[i].1->Int_0].0 by {
        assert(c.contains(c[i]));
        let j = choose|j: int| 0 <= j < t.len() && t[j] == c[i];
    }
}

/// A dictionary encodes as its entries put in one after the other: sorted
/// by key, with the last of entries that share a key.
pub proof fn lemma_encode_dict(es: Seq<(Seq<u8>, Bencode)>)
    ensures
        encode_value(Bencode::Dict(es)) == seq![0x64u8] + encode_entries(dict_from_pairs(es))
            + seq![0x65u8],
{
    let t = tag_positions(es);
    lemma_canonical_order_in_range(es);
    lemma_encode_tagged(es, canonical_order(es));
    lemma_untag_from_pairs(es, t);
    assert(untag(es, t) =~= es);
}

/// Positions in `ev` as tagged keys.
pub open spec fn tagged_view(ev: Seq<(Seq<u8>, Bencode)>, order: Seq<usize>) -> Seq<
    (Seq<u8>, Bencode),
> {
    Seq::new(order.len(), |i: int| (ev[order[i] as int].0, Bencode::Int(order[i] as int)))
}

fn insert_index(es: &Vec<(Vec<u8>, BencodeValue)>, order: &mut Vec<usize>, j: usize)
    requires
        j < es@.len(),
        forall|i: int| 0 <= i < old(order)@.len() ==> #[trigger] old(order)@[i] < es@.len(),
    ensures
        tagged_view(entries_view(es@), final(order)@) == dict_insert(
            tagged_view(entries_view(es@), old(order)@),
            entries_view(es@)[j as int].0,
            Bencode::Int(j as int),
        ),
        forall|i: int| 0 <= i < final(order)@.len() ==> #[trigger] final(order)@[i] < es@.len(),
{
    let ghost ev = entries_view(es@);
    let ghost model = tagged_view(ev, order@);
    let ghost k = ev[j as int].0;
    let key = es[j].0.as_slice();
    let mut m: usize = 0;
    while m < order.len() && key_less(es[order[m]].0.as_slice(), key)
        invariant
            m <= order@.len(),
            j < es@.len(),
            ev == entries_view(es@),
            k == ev[j as int].0,
            key@ == k,
            model == tagged_view(ev, order@),
            forall|i: int| 0 <= i < order@.len() ==> #[trigger] order@[i] < es@.len(),
            forall|i: int| 0 <= i < m ==> key_lt(#[trigger] model[i].0, k),
        decreases order@.len() - m,
    {
        m = m + 1;
    }
    proof {
        lemma_insert_split(model, k, Bencode::Int(j as int), m as int);
    }
    if m < order.len() && !key_less(key, es[order[m]].0.as_slice()) {
        proof {
            lemma_key_order(model[m as int].0, k);
        }
        order.set(m, j);
        assert(tagged_view(ev, order@) =~= model.take(m as int) + seq![(k, Bencode::Int(j as int))]
            + model.skip(m + 1));
    } else {
        proof {
            if m < order@.len() {
                lemma_key_order(model[m as int].0, k);
            }
        }
        order.insert(m, j);
        assert(tagged_view(ev, order@) =~= model.take(m as int) + seq![(k, Bencode::Int(j as int))]
            + model.skip(m as int));
    }
}

/// The positions of a dictionary's entries in the order they are written.
fn canonical_indices(es: &Vec<(Vec<u8>, BencodeValue)>) -> (r: Vec<usize>)
    ensures
        tagged_view(entries_view(es@), r@) == canonical_order(entries_view(es@)),
        forall|i: int| 0 <= i < r@.len() ==> #[trigger] r@[i] < es@.len(),
{
    let ghost ev = entries_view(es@);
    let ghost tp = tag_positions(ev);
    let mut order: Vec<usize> = Vec::new();
    let mut j: usize = 0;
    assert(tagged_view(ev, order@) =~= dict_from_pairs(tp.take(0)));
    while j < es.len()
        invariant
            j <= es@.len(),
            ev == entries_view(es@),
            tp == tag_positions(ev),
            tagged_view(ev, order@) == dict_from_pairs(tp.take(j as int)),
            forall|i: int| 0 <= i < order@.len() ==> #[trigger] order@[i] < es@.len(),
        decreases es@.len() - j,
    {
        insert_index(es, &mut order, j);
        assert(tp.take(j + 1).drop_last() =~= tp.take(j as int));
        assert(tp.take(j + 1).last() == tp[j as int]);
        j = j + 1;
    }
    assert(tp.take(j as int) =~= tp);
    order
}

fn write_decimal(n: u64, out: &mut Vec<u8>)
    ensures
        final(out)@ == old(out)@ + dec_digits(n as nat),
    decreases n,
{
    let ghost start = out@;
    if n >= 10 {
        write_decimal(n / 10, out);
    }
    out.push(0x30 + (n % 10) as u8);
    if n >= 10 {
        assert(out@ =~= start + dec_digits(n as nat));
    } else {
        assert(out@ =~= start + dec_digits(n as nat));
    }
}

fn write_bytes(b: &[u8], out: &mut Vec<u8>)
    ensures
        final(out)@ == old(out)@ + encode_bytes(b@),
{
    let ghost start = out@;
    write_decimal(b.len() as u64, out);
    out.push(0x3a);
    let mut i: usize = 0;
    while i < b.len()
        invariant
            i <= b@.len(),
            out@ == start + dec_digits(b@.len()) + seq![0x3au8] + b@.take(i as int),
        decreases b@.len() - i,
    {
        out.push(b[i]);
        assert(b@.take(i + 1) =~= b@.take(i as int).push(b@[i as int]));
        i = i + 1;
    }
    assert(b@.take(i as int) =~= b@);
    assert(out@ =~= start + encode_bytes(b@));
}

fn write_value(v: &BencodeValue, out: &mut Vec<u8>)
    ensures
        final(out)@ == old(out)@ + encode_value(v@),
    decreases v,
{
    let ghost start = out@;
    match v {
        BencodeValue::ByteString(b) => {
            write_bytes(b.as_slice(), out);
        },
        BencodeValue::Integer(n) => {
            out.push(0x69);
            let m: u64 = if *n < 0 {
                out.push(0x2d);
                if *n == i64::MIN {
                    0x8000_0000_0000_0000u64
                } else {
                    (-*n) as u64
                }
            } else {
                *n as u64
            };
            write_decimal(m, out);
            out.push(0x65);
            assert(out@ =~= start + encode_value(v@));
        },
        BencodeValue::List(items) => {
            out.push(0x6c);
            let ghost iv = v@->List_0;
            let mut i: usize = 0;
            while i < items.len()
                invariant
                    i <= items@.len(),
                    *v == BencodeValue::List(*items),
                    iv.len() == items@.len(),
                    forall|k: int| 0 <= k < items@.len() ==> iv[k] == (#[trigger] items@[k])@,
                    out@ == start + seq![0x6cu8] + encode_items(iv.take(i as int)),
                decreases items@.len() - i,
            {
                proof {
                    vstd::std_specs::vec::axiom_vec_index_decreases(*items, i as int);
                    assert(decreases_to!(*v => v->List_0));
                    assert(decreases_to!(v => items));
                }
                write_value(&items[i], out);
                assert(iv.take(i + 1).drop_last() =~= iv.take(i as int));
                i = i + 1;
            }
            out.push(0x65);
            assert(iv.take(i as int) =~= iv);
            assert(out@ =~= start + encode_value(v@));
        },
        BencodeValue::Dictionary(es) => {
            out.push(0x64);
            let ghost ev = v@->Dict_0;
            assert(ev =~= entries_view(es@));
            let order = canonical_indices(es);
            let ghost co = canonical_order(ev);
            proof {
                lemma_canonical_order_in_range(ev);
            }
            let mut i: usize = 0;
            while i < order.len()
                invariant
                    i <= order@.len(),
                    *v == BencodeValue::Dictionary(*es),
                    ev == entries_view(es@),
                    co == canonical_order(ev),
                    tagged_view(ev, order@) == co,
                    forall|m: int| 0 <= m < order@.len() ==> #[trigger] order@[m] < es@.len(),
                    out@ == start + seq![0x64u8] + encode_tagged(ev, co.take(i as int)),
                decreases order@.len() - i,
            {
                let j = order[i];
                assert(co[i as int] == tagged_view(ev, order@)[i as int]);
                write_bytes(es[j].0.as_slice(), out);
                proof {
                    vstd::std_specs::vec::axiom_vec_index_decreases(*es, j as int);
                    assert(decreases_to!(*v => v->Dictionary_0));
                    assert(decreases_to!(v => es));
                    assert(decreases_to!(es[j as int] => es[j as int].1));
                }
                write_value(&es[j].1, out);
                assert(co.take(i + 1).drop_last() =~= co.take(i as int));
                assert(co.take(i + 1).last() == co[i as int]);
                i = i + 1;
            }
            out.push(0x65);
            assert(co.take(i as int) =~= co);
            assert(out@ =~= start + encode_value(v@));
        },
    }
}

/// The canonical bencoding of `v`: dictionary entries come sorted by the raw
/// bytes of their keys, and of entries that share a key only the last.
pub fn encode(v: &BencodeValue) -> (r: Vec<u8>)
    ensures
        r@ == encode_value(v@),
{
    let mut out: Vec<u8> = Vec::new();
    write_value(v, &mut out);
    assert(out@ =~= encode_value(v@));
    out
}

} // verus!
