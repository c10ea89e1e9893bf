use vstd::prelude::*;

verus! {

broadcast use vstd::std_specs::vec::group_vec_axioms;

/// Pairs up keys and values by position.
pub open spec fn zip_entries(ks: Seq<Seq<u8>>, vs: Seq<Bencode>) -> Seq<(Seq<u8>, Bencode)> {
    Seq::new(vs.len(), |i: int| (ks[i], vs[i]))
}

/// The mathematical model of a bencoded value.
pub enum Bencode {
    Bytes(Seq<u8>),
    Int(int),
    List(Seq<Bencode>),
    Dict(Seq<(Seq<u8>, Bencode)>),
}

/// A bencode value. A well-formed one (see `well_formed`) holds each
/// dictionary's entries sorted by the raw bytes of their keys, with no key
/// twice: `decode`, `insert_entry` and `dictionary_from_pairs` keep them so.
/// `encode` sorts whatever order entries are held in.
#[derive(Debug, PartialEq, Eq)]
pub enum BencodeValue {
    ByteString(Vec<u8>),
    Integer(i64),
    List(Vec<BencodeValue>),
    Dictionary(Vec<(Vec<u8>, BencodeValue)>),
}

impl View for BencodeValue {
    type V = Bencode;

    open spec fn view(&self) -> Bencode
        decreases self,
    {
        match self {
            BencodeValue::ByteString(b) => Bencode::Bytes(b@),
            BencodeValue::Integer(n) => Bencode::Int(*n as int),
            BencodeValue::List(items) => Bencode::List(
                Seq::new(
                    items.len() as nat,
                    |i: int|
                        if 0 <= i < items.len() {
                            items[i].view()
                        } else {
                            Bencode::Int(0)
                        },
                ),
            ),
            BencodeValue::Dictionary(es) => Bencode::Dict(
                zip_entries(
                    Seq::new(es.len() as nat, |i: int| es[i].0@),
                    Seq::new(
                        es.len() as nat,
                        |i: int|
                            if 0 <= i < es.len() {
                                es[i].1.view()
                            } else {
                                Bencode::Int(0)
                            },
                    ),
                ),
            ),
        }
    }
}


/// `a` orders before `b` from index `i` on: the first byte where they differ
/// is smaller in `a`, or `a` ends first.
pub open spec fn key_lt_from(a: Seq<u8>, b: Seq<u8>, i: int) -> bool
    decreases a.len() - i,
{
    if i < 0 || i >= a.len() {
        i < b.len()
    } else if i >= b.len() {
        false
    } else if a[i] != b[i] {
        a[i] < b[i]
    } else {
        key_lt_from(a, b, i + 1)
    }
}

/// Raw byte order of dictionary keys.
pub open spec fn key_lt(a: Seq<u8>, b: Seq<u8>) -> bool {
    key_lt_from(a, b, 0)
}

/// Entries strictly sorted by key: keys are unique and in raw byte order.
pub open spec fn sorted_keys(es: Seq<(Seq<u8>, Bencode)>) -> bool {
    forall|i: int, j: int| 0 <= i < j < es.len() ==> key_lt(#[trigger] es[i].0, #[trigger] es[j].0)
}

/// Every dictionary in the value, at every depth, is sorted by key.
pub open spec fn well_formed(v: Bencode) -> bool
    decreases v,
{
    match v {
        Bencode::Bytes(_) => true,
        Bencode::Int(_) => true,
        Bencode::List(items) => forall|i: int|
            0 <= i < items.len() ==> well_formed(#[trigger] items[i]),
        Bencode::Dict(es) => sorted_keys(es) && forall|i: int|
            0 <= i < es.len() ==> well_formed(#[trigger] es[i].1),
    }
}

/// The entries after `(k, v)` is put in: an entry with key `k` is replaced,
/// otherwise the pair goes where the key order places it.
pub open spec fn dict_insert(es: Seq<(Seq<u8>, Bencode)>, k: Seq<u8>, v: Bencode) -> Seq<
    (Seq<u8>, Bencode),
>
    decreases es.len(),
{
    if es.len() == 0 {
        seq![(k, v)]
    } else if es[0].0 == k {
        seq![(k, v)] + es.drop_first()
    } else if key_lt(k, es[0].0) {
        seq![(k, v)] + es
    } else {
        seq![es[0]] + dict_insert(es.drop_first(), k, v)
    }
}

/// The dictionary that inserting `pairs` one after the other into an empty
/// one gives; of two equal keys the later pair wins.
pub open spec fn dict_from_pairs(pairs: Seq<(Seq<u8>, Bencode)>) -> Seq<(Seq<u8>, Bencode)>
    decreases pairs.len(),
{
    if pairs.len() == 0 {
        Seq::empty()
    } else {
        dict_insert(dict_from_pairs(pairs.drop_last()), pairs.last().0, pairs.last().1)
    }
}

pub proof fn lemma_key_lt_irreflexive(a: Seq<u8>, i: int)
    requires
        i >= 0,
    ensures
        !key_lt_from(a, a, i),
    decreases a.len() - i,
{
    if 0 <= i < a.len() {
        lemma_key_lt_irreflexive(a, i + 1);
    }
}

pub proof fn lemma_key_lt_transitive(a: Seq<u8>, b: Seq<u8>, c: Seq<u8>, i: int)
    requires
        i >= 0,
        key_lt_from(a, b, i),
        key_lt_from(b, c, i),
    ensures
        key_lt_from(a, c, i),
    decreases a.len() - i,
{
    if i < a.len() && i < b.len() && i < c.len() && a[i] == b[i] && b[i] == c[i] {
        lemma_key_lt_transitive(a, b, c, i + 1);
    }
}

pub proof fn lemma_key_lt_total(a: Seq<u8>, b: Seq<u8>, i: int)
    requires
        0 <= i <= a.len(),
        i <= b.len(),
        a.subrange(0, i) == b.subrange(0, i),
        !key_lt_from(a, b, i),
        !key_lt_from(b, a, i),
    ensures
        a == b,
    decreases a.len() - i,
{
    if i < a.len() {
        assert(a.subrange(0, i + 1) =~= a.subrange(0, i).push(a[i]));
        assert(b.subrange(0, i + 1) =~= b.subrange(0, i).push(b[i]));
        lemma_key_lt_total(a, b, i + 1);
    } else {
        assert(a =~= a.subrange(0, i));
        assert(b =~= b.subrange(0, i));
    }
}

pub proof fn lemma_key_order(a: Seq<u8>, b: Seq<u8>)
    ensures
        !key_lt(a, a),
        a != b ==> key_lt(a, b) || key_lt(b, a),
{
    lemma_key_lt_irreflexive(a, 0);
    if a != b && !key_lt(a, b) && !key_lt(b, a) {
        assert(a.subrange(0, 0) =~= b.subrange(0, 0));
        lemma_key_lt_total(a, b, 0);
    }
}

pub proof fn lemma_key_trans(a: Seq<u8>, b: Seq<u8>, c: Seq<u8>)
    requires
        key_lt(a, b),
        key_lt(b, c),
    ensures
        key_lt(a, c),
{
    lemma_key_lt_transitive(a, b, c, 0);
}


/// The model of a vector of dictionary entries.
pub open spec fn entries_view(es: Seq<(Vec<u8>, BencodeValue)>) -> Seq<(Seq<u8>, Bencode)> {
    es.map_values(|e: (Vec<u8>, BencodeValue)| (e.0@, e.1@))
}

/// Where `dict_insert` puts a key: after the `j` entries whose keys order
/// before it, replacing the entry at `j` when that one has the same key.
pub proof fn lemma_insert_split(es: Seq<(Seq<u8>, Bencode)>, k: Seq<u8>, v: Bencode, j: int)
    requires
        0 <= j <= es.len(),
        forall|i: int| 0 <= i < j ==> key_lt(#[trigger] es[i].0, k),
        j < es.len() ==> !key_lt(es[j].0, k),
    ensures
        dict_insert(es, k, v) == if j < es.len() && es[j].0 == k {
            es.take(j) + seq![(k, v)] + es.skip(j + 1)
        } else {
            es.take(j) + seq![(k, v)] + es.skip(j)
        },
    decreases j,
{
    if j == 0 {
        if es.len() > 0 && es[0].0 != k {
            lemma_key_order(es[0].0, k);
        }
        assert(es.take(0) + seq![(k, v)] + es.skip(0) =~= seq![(k, v)] + es);
        assert(es.take(0) + seq![(k, v)] + es.skip(1) =~= seq![(k, v)] + es.drop_first());
    } else {
        lemma_key_order(k, k);
        if key_lt(k, es[0].0) {
            lemma_key_trans(k, es[0].0, k);
        }
        let rest = es.drop_first();
        assert forall|i: int| 0 <= i < j - 1 implies key_lt(#[trigger] rest[i].0, k) by {
            assert(rest[i] == es[i + 1]);
        }
        lemma_insert_split(rest, k, v, j - 1);
        if j < es.len() && es[j].0 == k {
            assert(es.take(j) + seq![(k, v)] + es.skip(j + 1) =~= seq![es[0]] + (rest.take(j - 1)
                + seq![(k, v)] + rest.skip(j)));
        } else {
            assert(es.take(j) + seq![(k, v)] + es.skip(j) =~= seq![es[0]] + (rest.take(j - 1)
                + seq![(k, v)] + rest.skip(j - 1)));
        }
    }
}

/// Inserting into a sorted dictionary keeps it sorted, holds the new pair,
/// and keeps every entry whose key differs.
pub proof fn lemma_insert_sorted(es: Seq<(Seq<u8>, Bencode)>, k: Seq<u8>, v: Bencode)
    requires
        sorted_keys(es),
    ensures
        sorted_keys(dict_insert(es, k, v)),
        dict_insert(es, k, v).contains((k, v)),
        forall|e: (Seq<u8>, Bencode)| #[trigger]
            dict_insert(es, k, v).contains(e) <==> (e == (k, v) || (es.contains(e) && e.0 != k)),
    decreases es.len(),
{
    if es.len() > 0 {
        let rest = es.drop_first();
        assert(sorted_keys(rest)) by {
            assert forall|i: int, j: int| 0 <= i < j < rest.len() implies key_lt(
                #[trigger] rest[i].0,
                #[trigger] rest[j].0,
            ) by {
                assert(rest[i] == es[i + 1] && rest[j] == es[j + 1]);
            }
        }
        lemma_insert_sorted(rest, k, v);
        lemma_key_order(es[0].0, k);
        let r = dict_insert(es, k, v);
        assert forall|i: int| 1 <= i < es.len() implies key_lt(es[0].0, #[trigger] es[i].0) by {}
        assert forall|e: (Seq<u8>, Bencode)| #[trigger] es.contains(e) <==> (e == es[0]
            || rest.contains(e)) by {
            if es.contains(e) && e != es[0] {
                let i = choose|i: int| 0 <= i < es.len() && es[i] == e;
                assert(rest[i - 1] == e);
            }
            if rest.contains(e) {
                let i = choose|i: int| 0 <= i < rest.len() && rest[i] == e;
                assert(es[i + 1] == e);
            }
        }
        if es[0].0 == k {
            assert forall|e: (Seq<u8>, Bencode)| #[trigger] rest.contains(e) implies e.0 != k by {
                let i = choose|i: int| 0 <= i < rest.len() && rest[i] == e;
                assert(es[i + 1] == e);
                lemma_key_order(k, k);
            }
            assert(r == seq![(k, v)] + rest);
            assert forall|i: int, j: int| 0 <= i < j < r.len() implies key_lt(
                #[trigger] r[i].0,
                #[trigger] r[j].0,
            ) by {
                assert(r[j] == es[j]);
                if i > 0 {
                    assert(r[i] == es[i]);
                }
            }
            assert(r[0] == (k, v));
            assert forall|e: (Seq<u8>, Bencode)| #[trigger] r.contains(e) <==> (e == (k, v) || (
            es.contains(e) && e.0 != k)) by {
                if r.contains(e) && e != (k, v) {
                    let i = choose|i: int| 0 <= i < r.len() && r[i] == e;
                    assert(rest[i - 1] == e);
                }
                if rest.contains(e) {
                    let i = choose|i: int| 0 <= i < rest.len() && rest[i] == e;
                    assert(r[i + 1] == e);
                }
            }
        } else if key_lt(k, es[0].0) {
            assert(r == seq![(k, v)] + es);
            assert forall|i: int, j: int| 0 <= i < j < r.len() implies key_lt(
                #[trigger] r[i].0,
                #[trigger] r[j].0,
            ) by {
                assert(r[j] == es[j - 1]);
                if i > 0 {
                    assert(r[i] == es[i - 1]);
                } else if j > 1 {
                    lemma_key_trans(k, es[0].0, es[j - 1].0);
                }
            }
            assert(r[0] == (k, v));
            assert forall|e: (Seq<u8>, Bencode)| #[trigger] es.contains(e) implies e.0 != k by {
                let i = choose|i: int| 0 <= i < es.len() && es[i] == e;
                lemma_key_order(k, k);
                if i > 0 {
                    lemma_key_trans(k, es[0].0, es[i].0);
                }
            }
            assert forall|e: (Seq<u8>, Bencode)| #[trigger] r.contains(e) <==> (e == (k, v) || (
            es.contains(e) && e.0 != k)) by {
                if r.contains(e) && e != (k, v) {
                    let i = choose|i: int| 0 <= i < r.len() && r[i] == e;
                    assert(es[i - 1] == e);
                }
                if es.contains(e) {
                    let i = choose|i: int| 0 <= i < es.len() && es[i] == e;
                    assert(r[i + 1] == e);
                }
            }
        } else {
            let t = dict_insert(rest, k, v);
            assert(r == seq![es[0]] + t);
            assert forall|e: (Seq<u8>, Bencode)| #[trigger] t.contains(e) implies key_lt(
                es[0].0,
                e.0,
            ) by {
                if e != (k, v) {
                    let i = choose|i: int| 0 <= i < rest.len() && rest[i] == e;
                    assert(es[i + 1] == e);
                }
            }
            assert forall|i: int, j: int| 0 <= i < j < r.len() implies key_lt(
                #[trigger] r[i].0,
                #[trigger] r[j].0,
            ) by {
                assert(r[j] == t[j - 1]);
                assert(t.contains(t[j - 1]));
                if i > 0 {
                    assert(r[i] == t[i - 1]);
                }
            }
            assert forall|e: (Seq<u8>, Bencode)| #[trigger] r.contains(e) <==> (e == (k, v) || (
            es.contains(e) && e.0 != k)) by {
                if r.contains(e) && e != es[0] {
                    let i = choose|i: int| 0 <= i < r.len() && r[i] == e;
                    assert(t[i - 1] == e);
                }
                if t.contains(e) {
                    let i = choose|i: int| 0 <= i < t.len() && t[i] == e;
                    assert(r[i + 1] == e);
                }
                if e == (k, v) {
                    assert(t.contains(e));
                }
            }
            assert(r[0] == es[0]);
        }
    } else {
        let r = dict_insert(es, k, v);
        assert(r[0] == (k, v));
        assert forall|e: (Seq<u8>, Bencode)| #[trigger] r.contains(e) implies e == (k, v) by {
            let i = choose|i: int| 0 <= i < r.len() && r[i] == e;
        }
    }
}

/// Whether `a` orders before `b` in raw byte order.
pub fn key_less(a: &[u8], b: &[u8]) -> (r: bool)
    ensures
        r == key_lt(a@, b@),
{
    let mut i: usize = 0;
    while i < a.len() && i < b.len() && a[i] == b[i]
        invariant
            i <= a@.len(),
            i <= b@.len(),
            key_lt_from(a@, b@, 0) == key_lt_from(a@, b@, i as int),
        decreases a@.len() - i,
    {
        i = i + 1;
    }
    if i == a.len() {
        i < b.len()
    } else if i == b.len() {
        false
    } else {
        a[i] < b[i]
    }
}

/// Puts `(k, v)` into sorted entries: an entry with key `k` is replaced,
/// otherwise the pair goes where the key order places it.
pub fn insert_entry(es: &mut Vec<(Vec<u8>, BencodeValue)>, k: Vec<u8>, v: BencodeValue)
    ensures
        entries_view(final(es)@) == dict_insert(entries_view(old(es)@), k@, v@),
{
    let ghost model = entries_view(es@);
    let mut j: usize = 0;
    while j < es.len() && key_less(es[j].0.as_slice(), k.as_slice())
        invariant
            j <= es@.len(),
            model == entries_view(es@),
            forall|i: int| 0 <= i < j ==> key_lt(#[trigger] model[i].0, k@),
        decreases es@.len() - j,
    {
        j = j + 1;
    }
    proof {
        lemma_insert_split(model, k@, v@, j as int);
    }
    let ghost kv = k@;
    let ghost vv = v@;
    if j < es.len() && es[j].0.len() == k.len() && !key_less(es[j].0.as_slice(), k.as_slice())
        && !key_less(k.as_slice(), es[j].0.as_slice()) {
        proof {
            lemma_key_order(model[j as int].0, kv);
        }
        es.set(j, (k, v));
        assert(entries_view(es@) =~= model.take(j as int) + seq![(kv, vv)] + model.skip(j + 1));
    } else {
        proof {
            if j < es@.len() {
                lemma_key_order(model[j as int].0, kv);
            }
        }
        es.insert(j, (k, v));
        assert(entries_view(es@) =~= model.take(j as int) + seq![(kv, vv)] + model.skip(j as int));
    }
}

/// A dictionary holding `pairs`, put in one after the other: keys end up in
/// raw byte order, and of two pairs with one key the later one stays.
pub fn dictionary_from_pairs(pairs: Vec<(Vec<u8>, BencodeValue)>) -> (r: BencodeValue)
    ensures
        r@ == Bencode::Dict(dict_from_pairs(entries_view(pairs@))),
{
    let ghost all = entries_view(pairs@);
    let mut pairs = pairs;
    let mut es: Vec<(Vec<u8>, BencodeValue)> = Vec::new();
    let ghost mut i: int = 0;
    assert(entries_view(es@) =~= dict_from_pairs(all.take(0)));
    while pairs.len() > 0
        invariant
            0 <= i <= all.len(),
            entries_view(pairs@) == all.skip(i),
            entries_view(es@) == dict_from_pairs(all.take(i)),
        decreases pairs@.len(),
    {
        let ghost before = pairs@;
        assert(entries_view(before).len() == before.len());
        assert(i < all.len());
        let (k, v) = pairs.remove(0);
        assert(all[i] == (k@, v@)) by {
            assert(all.skip(i)[0] == entries_view(before)[0]);
        }
        assert(entries_view(pairs@) =~= all.skip(i + 1)) by {
            assert(pairs@ =~= before.drop_first());
            assert forall|j: int| 0 <= j < pairs@.len() implies #[trigger] entries_view(pairs@)[j]
                == all.skip(i + 1)[j] by {
                assert(entries_view(before)[j + 1] == all.skip(i)[j + 1]);
            }
        }
        insert_entry(&mut es, k, v);
        proof {
            assert(all.take(i + 1).drop_last() =~= all.take(i));
            i = i + 1;
        }
    }
    assert(all.take(i) =~= all);
    let ghost ev = es@;
    let r = BencodeValue::Dictionary(es);
    assert(r@->Dict_0 =~= entries_view(ev));
    r
}

/// No two pairs share a key.
pub open spec fn distinct_keys(ps: Seq<(Seq<u8>, Bencode)>) -> bool {
    forall|i: int, j: int| 0 <= i < j < ps.len() ==> #[trigger] ps[i].0 != #[trigger] ps[j].0
}

proof fn lemma_sorted_drop_first(es: Seq<(Seq<u8>, Bencode)>)
    requires
        sorted_keys(es),
        es.len() > 0,
    ensures
        sorted_keys(es.drop_first()),
        forall|e: (Seq<u8>, Bencode)| #[trigger]
            es.drop_first().contains(e) ==> key_lt(es[0].0, e.0),
        forall|e: (Seq<u8>, Bencode)|
            #![trigger es.contains(e)]
            #![trigger es.drop_first().contains(e)]
            es.contains(e) <==> (e == es[0] || es.drop_first().contains(e)),
{
    let rest = es.drop_first();
    assert forall|i: int, j: int| 0 <= i < j < rest.len() implies key_lt(
        #[trigger] rest[i].0,
        #[trigger] rest[j].0,
    ) by {
        assert(rest[i] == es[i + 1] && rest[j] == es[j + 1]);
    }
    assert forall|e: (Seq<u8>, Bencode)| #[trigger] rest.contains(e) implies key_lt(
        es[0].0,
        e.0,
    ) by {
        let i = choose|i: int| 0 <= i < rest.len() && rest[i] == e;
        assert(es[i + 1] == e);
    }
    assert forall|e: (Seq<u8>, Bencode)| #[trigger] es.contains(e) <==> (e == es[0]
        || rest.contains(e)) by {
        if es.contains(e) && e != es[0] {
            let i = choose|i: int| 0 <= i < es.len() && es[i] == e;
            assert(rest[i - 1] == e);
        }
        if rest.contains(e) {
            let i = choose|i: int| 0 <= i < rest.len() && rest[i] == e;
            assert(es[i + 1] == e);
        }
        if e == es[0] {
            assert(es[0] == e);
        }
    }
}

/// Two sorted dictionaries that hold the same entries are the same.
pub proof fn lemma_sorted_unique(s1: Seq<(Seq<u8>, Bencode)>, s2: Seq<(Seq<u8>, Bencode)>)
    requires
        sorted_keys(s1),
        sorted_keys(s2),
        forall|e: (Seq<u8>, Bencode)|
            #![trigger s1.contains(e)]
            #![trigger s2.contains(e)]
            s1.contains(e) <==> s2.contains(e),
    ensures
        s1 == s2,
    decreases s1.len(),
{
    if s1.len() == 0 {
        if s2.len() > 0 {
            assert(s2.contains(s2[0]));
        }
        assert(s1 =~= s2);
    } else {
        assert(s1.contains(s1[0]));
        assert(s2.len() > 0);
        assert(s2.contains(s2[0]));
        lemma_sorted_drop_first(s1);
        lemma_sorted_drop_first(s2);
        lemma_key_order(s1[0].0, s1[0].0);
        if s1[0] != s2[0] {
            assert(s1.drop_first().contains(s2[0]));
            assert(s2.drop_first().contains(s1[0]));
            lemma_key_trans(s1[0].0, s2[0].0, s1[0].0);
        }
        let t1 = s1.drop_first();
        let t2 = s2.drop_first();
        assert forall|e: (Seq<u8>, Bencode)|
            #![trigger t1.contains(e)]
            #![trigger t2.contains(e)]
            t1.contains(e) <==> t2.contains(e) by {
            if t1.contains(e) || t2.contains(e) {
                lemma_key_order(e.0, e.0);
            }
        }
        lemma_sorted_unique(t1, t2);
        assert(s1 =~= seq![s1[0]] + t1);
        assert(s2 =~= seq![s2[0]] + t2);
    }
}

/// What a dictionary built from pairs holds: it is sorted, and with distinct
/// keys its entries are exactly the pairs.
pub proof fn lemma_from_pairs(ps: Seq<(Seq<u8>, Bencode)>)
    ensures
        sorted_keys(dict_from_pairs(ps)),
        distinct_keys(ps) ==> forall|e: (Seq<u8>, Bencode)| #[trigger]
            dict_from_pairs(ps).contains(e) <==> ps.contains(e),
    decreases ps.len(),
{
    if ps.len() > 0 {
        let init = ps.drop_last();
        let (k, v) = ps.last();
        lemma_from_pairs(init);
        lemma_insert_sorted(dict_from_pairs(init), k, v);
        if distinct_keys(ps) {
            assert(distinct_keys(init)) by {
                assert forall|i: int, j: int| 0 <= i < j < init.len() implies #[trigger] init[i].0
                    != #[trigger] init[j].0 by {
                    assert(init[i] == ps[i] && init[j] == ps[j]);
                }
            }
            assert forall|e: (Seq<u8>, Bencode)| #[trigger]
                dict_from_pairs(ps).contains(e) <==> ps.contains(e) by {
                if init.contains(e) {
                    let i = choose|i: int| 0 <= i < init.len() && init[i] == e;
                    assert(ps[i] == e);
                    assert(ps[i].0 != ps[ps.len() - 1].0);
                }
                if ps.contains(e) && e != (k, v) {
                    let i = choose|i: int| 0 <= i < ps.len() && ps[i] == e;
                    assert(init[i] == e);
                }
                if e == (k, v) {
                    assert(ps[ps.len() - 1] == e);
                }
            }
        }
    }
}

/// The order in which pairs with distinct keys are put into a dictionary
/// does not matter: any two orders give the same dictionary.
pub proof fn lemma_insertion_order_irrelevant(
    p1: Seq<(Seq<u8>, Bencode)>,
    p2: Seq<(Seq<u8>, Bencode)>,
)
    requires
        distinct_keys(p1),
        distinct_keys(p2),
        forall|e: (Seq<u8>, Bencode)|
            #![trigger p1.contains(e)]
            #![trigger p2.contains(e)]
            p1.contains(e) <==> p2.contains(e),
    ensures
        dict_from_pairs(p1) == dict_from_pairs(p2),
{
    lemma_from_pairs(p1);
    lemma_from_pairs(p2);
    let d1 = dict_from_pairs(p1);
    let d2 = dict_from_pairs(p2);
    assert forall|e: (Seq<u8>, Bencode)|
        #![trigger d1.contains(e)]
        #![trigger d2.contains(e)]
        d1.contains(e) <==> d2.contains(e) by {
        assert(d1.contains(e) <==> p1.contains(e));
        assert(d2.contains(e) <==> p2.contains(e));
    }
    lemma_sorted_unique(d1, d2);
}

/// Every entry of a dictionary built from pairs is one of the pairs.
pub proof fn lemma_from_pairs_subset(ps: Seq<(Seq<u8>, Bencode)>)
    ensures
        forall|e: (Seq<u8>, Bencode)| #[trigger]
            dict_from_pairs(ps).contains(e) ==> ps.contains(e),
    decreases ps.len(),
{
    if ps.len() > 0 {
        let init = ps.drop_last();
        lemma_from_pairs_subset(init);
        lemma_from_pairs(init);
        lemma_insert_sorted(dict_from_pairs(init), ps.last().0, ps.last().1);
        assert forall|e: (Seq<u8>, Bencode)| #[trigger]
            dict_from_pairs(ps).contains(e) implies ps.contains(e) by {
            if e == (ps.last().0, ps.last().1) {
                assert(ps[ps.len() - 1] == e);
            } else {
                assert(init.contains(e));
                let i = choose|i: int| 0 <= i < init.len() && init[i] == e;
                assert(ps[i] == e);
            }
        }
    }
}

} // verus!
