use vstd::prelude::*;
use crate::value::{
    Bencode, BencodeValue, dict_from_pairs, entries_view, insert_entry, lemma_from_pairs,
    lemma_insert_sorted, well_formed,
};

verus! {

broadcast use vstd::std_specs::vec::group_vec_axioms;

/// How deeply lists and dictionaries may nest before decoding gives up.
pub const MAX_DEPTH: usize = 128;

/// Why a byte sequence is not a bencoded value.
#[derive(Debug, Clone, Copy, PartialEq, Eq, Structural)]
pub enum DecodeError {
    UnknownValueTag,
    MalformedLength,
    MalformedInteger,
    TruncatedInput,
    NonStringKey,
    NestingTooDeep,
}

pub open spec fn is_digit(c: u8) -> bool {
    0x30 <= c <= 0x39
}

pub open spec fn all_digits(t: Seq<u8>) -> bool {
    forall|i: int| 0 <= i < t.len() ==> is_digit(#[trigger] t[i])
}

/// The number that a run of ASCII decimal digits writes.
pub open spec fn digits_value(t: Seq<u8>) -> nat
    decreases t.len(),
{
    if t.len() == 0 {
        0
    } else {
        digits_value(t.drop_last()) * 10 + (t.last() - 0x30) as nat
    }
}

/// The first index at or after `start` that holds byte `b`.
pub open spec fn find_from(s: Seq<u8>, start: int, b: u8) -> Option<int>
    decreases s.len() - start,
{
    if start < 0 || start >= s.len() {
        None
    } else if s[start] == b {
        Some(start)
    } else {
        find_from(s, start + 1, b)
    }
}

/// The integer that the text between `i` and `e` writes: `0`, or digits
/// without a leading zero, with an optional `-` before them.
pub open spec fn int_text_value(t: Seq<u8>) -> Option<int> {
    if t == seq![0x30u8] {
        Some(0)
    } else if t.len() > 1 && t[0] == 0x2d && all_digits(t.drop_first()) && t[1] != 0x30 {
        Some(-digits_value(t.drop_first()))
    } else if t.len() > 0 && all_digits(t) && t[0] != 0x30 {
        Some(digits_value(t) as int)
    } else {
        None
    }
}

pub open spec fn fits_i64(n: int) -> bool {
    i64::MIN <= n <= i64::MAX
}

/// The value that starts at `pos` with nesting depth `depth` around it, and
/// the index just past it.
pub open spec fn parse_value(s: Seq<u8>, pos: int, depth: nat) -> Result<(Bencode, int), DecodeError>
    decreases s.len() - pos, 0nat,
{
    if pos < 0 || pos >= s.len() {
        Err(DecodeError::UnknownValueTag)
    } else if is_digit(s[pos]) {
        match find_from(s, pos, 0x3a) {
            None => Err(DecodeError::TruncatedInput),
            Some(colon) => {
                let t = s.subrange(pos, colon);
                if !all_digits(t) || digits_value(t) > usize::MAX {
                    Err(DecodeError::MalformedLength)
                } else if colon + 1 + digits_value(t) > s.len() {
                    Err(DecodeError::TruncatedInput)
                } else {
                    let end = colon + 1 + digits_value(t);
                    Ok((Bencode::Bytes(s.subrange(colon + 1, end)), end))
                }
            },
        }
    } else if s[pos] == 0x69 {
        match find_from(s, pos + 1, 0x65) {
            None => Err(DecodeError::TruncatedInput),
            Some(e) => match int_text_value(s.subrange(pos + 1, e)) {
                Some(n) => if fits_i64(n) {
                    Ok((Bencode::Int(n), e + 1))
                } else {
                    Err(DecodeError::MalformedInteger)
                },
                None => Err(DecodeError::MalformedInteger),
            },
        }
    } else if s[pos] == 0x6c {
        if depth >= MAX_DEPTH {
            Err(DecodeError::NestingTooDeep)
        } else {
            match parse_list_items(s, pos + 1, depth + 1) {
                Ok((items, q)) => Ok((Bencode::List(items), q)),
                Err(e) => Err(e),
            }
        }
    } else if s[pos] == 0x64 {
        if depth >= MAX_DEPTH {
            Err(DecodeError::NestingTooDeep)
        } else {
            match parse_dict_items(s, pos + 1, depth + 1) {
                Ok((pairs, q)) => Ok((Bencode::Dict(dict_from_pairs(pairs)), q)),
                Err(e) => Err(e),
            }
        }
    } else {
        Err(DecodeError::UnknownValueTag)
    }
}

/// The values from `pos` up to a closing `e`, and the index just past it.
pub open spec fn parse_list_items(s: Seq<u8>, pos: int, depth: nat) -> Result<
    (Seq<Bencode>, int),
    DecodeError,
>
    decreases s.len() - pos, 1nat,
{
    if pos < 0 || pos >= s.len() {
        Err(DecodeError::TruncatedInput)
    } else if s[pos] == 0x65 {
        Ok((Seq::empty(), pos + 1))
    } else {
        match parse_value(s, pos, depth) {
            Err(e) => Err(e),
            Ok((v, q)) => if q <= pos || q > s.len() {
                Err(DecodeError::TruncatedInput)
            } else {
                match parse_list_items(s, q, depth) {
                    Ok((rest, r)) => Ok((seq![v] + rest, r)),
                    Err(e) => Err(e),
                }
            },
        }
    }
}

/// The key and value pairs from `pos` up to a closing `e`, in the order
/// written, and the index just past it.
pub open spec fn parse_dict_items(s: Seq<u8>, pos: int, depth: nat) -> Result<
    (Seq<(Seq<u8>, Bencode)>, int),
    DecodeError,
>
    decreases s.len() - pos, 1nat,
{
    if pos < 0 || pos >= s.len() {
        Err(DecodeError::TruncatedInput)
    } else if s[pos] == 0x65 {
        Ok((Seq::empty(), pos + 1))
    } else {
        match parse_value(s, pos, depth) {
            Err(e) => Err(e),
            Ok((key, q)) => match key {
                Bencode::Bytes(k) => if q <= pos || q > s.len() {
                    Err(DecodeError::TruncatedInput)
                } else {
                    match parse_value(s, q, depth) {
                        Err(e) => Err(e),
                        Ok((v, r)) => if r <= q || r > s.len() {
                            Err(DecodeError::TruncatedInput)
                        } else {
                            match parse_dict_items(s, r, depth) {
                                Ok((rest, t)) => Ok((seq![(k, v)] + rest, t)),
                                Err(e) => Err(e),
                            }
                        },
                    }
                },
                _ => Err(DecodeError::NonStringKey),
            },
        }
    }
}


pub proof fn lemma_find_from(s: Seq<u8>, start: int, b: u8)
    requires
        start >= 0,
    ensures
        match find_from(s, start, b) {
            Some(i) => start <= i < s.len() && s[i] == b && forall|j: int|
                start <= j < i ==> s[j] != b,
            None => forall|j: int| start <= j < s.len() ==> s[j] != b,
        },
    decreases s.len() - start,
{
    if 0 <= start < s.len() && s[start] != b {
        lemma_find_from(s, start + 1, b);
    }
}

proof fn lemma_digits_monotone(t: Seq<u8>, i: int)
    requires
        all_digits(t),
        0 <= i <= t.len(),
    ensures
        digits_value(t) >= digits_value(t.take(i)),
    decreases t.len(),
{
    if i < t.len() {
        let d = t.drop_last();
        assert(all_digits(d)) by {
            assert forall|k: int| 0 <= k < d.len() implies is_digit(#[trigger] d[k]) by {
                assert(d[k] == t[k]);
            }
        }
        lemma_digits_monotone(d, i);
        assert(d.take(i) =~= t.take(i));
    } else {
        assert(t.take(i) =~= t);
    }
}

/// A value that decodes ends past where it starts, within the input.
proof fn lemma_value_advances(s: Seq<u8>, pos: int, depth: nat)
    ensures
        match parse_value(s, pos, depth) {
            Ok((_, q)) => pos < q <= s.len(),
            Err(_) => true,
        },
{
    if 0 <= pos < s.len() {
        if is_digit(s[pos]) {
            lemma_find_from(s, pos, 0x3a);
        } else if s[pos] == 0x69 {
            lemma_find_from(s, pos + 1, 0x65);
        } else if s[pos] == 0x6c && depth < MAX_DEPTH {
            lemma_list_advances(s, pos + 1, depth + 1);
        } else if s[pos] == 0x64 && depth < MAX_DEPTH {
            lemma_dict_advances(s, pos + 1, depth + 1);
        }
    }
}

proof fn lemma_list_advances(s: Seq<u8>, pos: int, depth: nat)
    ensures
        match parse_list_items(s, pos, depth) {
            Ok((_, q)) => pos < q <= s.len(),
            Err(_) => true,
        },
    decreases s.len() - pos,
{
    if 0 <= pos < s.len() && s[pos] != 0x65 {
        match parse_value(s, pos, depth) {
            Ok((_, q)) => if pos < q <= s.len() {
                lemma_list_advances(s, q, depth);
            },
            Err(_) => {},
        }
    }
}

proof fn lemma_dict_advances(s: Seq<u8>, pos: int, depth: nat)
    ensures
        match parse_dict_items(s, pos, depth) {
            Ok((_, q)) => pos < q <= s.len(),
            Err(_) => true,
        },
    decreases s.len() - pos,
{
    if 0 <= pos < s.len() && s[pos] != 0x65 {
        match parse_value(s, pos, depth) {
            Ok((Bencode::Bytes(_), q)) => if pos < q <= s.len() {
                match parse_value(s, q, depth) {
                    Ok((_, r)) => if q < r <= s.len() {
                        lemma_dict_advances(s, r, depth);
                    },
                    Err(_) => {},
                }
            },
            _ => {},
        }
    }
}

proof fn lemma_pairs_well_formed(ps: Seq<(Seq<u8>, Bencode)>)
    requires
        forall|i: int| 0 <= i < ps.len() ==> well_formed(#[trigger] ps[i].1),
    ensures
        well_formed(Bencode::Dict(dict_from_pairs(ps))),
    decreases ps.len(),
{
    lemma_from_pairs(ps);
    if ps.len() > 0 {
        let init = ps.drop_last();
        assert forall|i: int| 0 <= i < init.len() implies well_formed(#[trigger] init[i].1) by {
            assert(init[i] == ps[i]);
        }
        lemma_pairs_well_formed(init);
        let d = dict_from_pairs(init);
        lemma_from_pairs(init);
        lemma_insert_sorted(d, ps.last().0, ps.last().1);
        let r = dict_from_pairs(ps);
        assert forall|i: int| 0 <= i < r.len() implies well_formed(#[trigger] r[i].1) by {
            assert(r.contains(r[i]));
            if r[i] != (ps.last().0, ps.last().1) {
                let j = choose|j: int| 0 <= j < d.len() && d[j] == r[i];
            } else {
                assert(ps[ps.len() - 1] == ps.last());
            }
        }
    }
}

/// Every value that decodes is well formed.
proof fn lemma_value_well_formed(s: Seq<u8>, pos: int, depth: nat)
    ensures
        parse_value(s, pos, depth) matches Ok((v, _)) ==> well_formed(v),
    decreases s.len() - pos, 0nat,
{
    if 0 <= pos < s.len() && !is_digit(s[pos]) && s[pos] != 0x69 && depth < MAX_DEPTH {
        if s[pos] == 0x6c {
            lemma_list_well_formed(s, pos + 1, depth + 1);
        } else if s[pos] == 0x64 {
            lemma_dict_well_formed(s, pos + 1, depth + 1);
            if let Ok((pairs, _)) = parse_dict_items(s, pos + 1, depth + 1) {
                lemma_pairs_well_formed(pairs);
            }
        }
    }
}

proof fn lemma_list_well_formed(s: Seq<u8>, pos: int, depth: nat)
    ensures
        parse_list_items(s, pos, depth) matches Ok((items, _)) ==> forall|i: int|
            0 <= i < items.len() ==> well_formed(#[trigger] items[i]),
    decreases s.len() - pos, 1nat,
{
    if 0 <= pos < s.len() && s[pos] != 0x65 {
        lemma_value_well_formed(s, pos, depth);
        if let Ok((v, q)) = parse_value(s, pos, depth) {
            if pos < q <= s.len() {
                lemma_list_well_formed(s, q, depth);
                if let Ok((rest, _)) = parse_list_items(s, q, depth) {
                    let items = seq![v] + rest;
                    assert forall|i: int| 0 <= i < items.len() implies well_formed(
                        #[trigger] items[i],
                    ) by {
                        if i > 0 {
                            assert(items[i] == rest[i - 1]);
                        }
                    }
                }
            }
        }
    }
}

proof fn lemma_dict_well_formed(s: Seq<u8>, pos: int, depth: nat)
    ensures
        parse_dict_items(s, pos, depth) matches Ok((pairs, _)) ==> forall|i: int|
            0 <= i < pairs.len() ==> well_formed(#[trigger] pairs[i].1),
    decreases s.len() - pos, 1nat,
{
    if 0 <= pos < s.len() && s[pos] != 0x65 {
        if let Ok((Bencode::Bytes(k), q)) = parse_value(s, pos, depth) {
            if pos < q <= s.len() {
                lemma_value_well_formed(s, q, depth);
                if let Ok((v, r)) = parse_value(s, q, depth) {
                    if q < r <= s.len() {
                        lemma_dict_well_formed(s, r, depth);
                        if let Ok((rest, _)) = parse_dict_items(s, r, depth) {
                            let pairs = seq![(k, v)] + rest;
                            assert forall|i: int| 0 <= i < pairs.len() implies well_formed(
                                #[trigger] pairs[i].1,
                            ) by {
                                if i > 0 {
                                    assert(pairs[i] == rest[i - 1]);
                                }
                            }
                        }
                    }
                }
            }
        }
    }
}

/// Every value that decodes from the start of `s` is well formed.
pub proof fn lemma_decoded_well_formed(s: Seq<u8>)
    ensures
        parse_value(s, 0, 0) matches Ok((v, _)) ==> well_formed(v),
{
    lemma_value_well_formed(s, 0, 0);
}

fn find_byte(s: &[u8], start: usize, b: u8) -> (r: Option<usize>)
    requires
        start <= s@.len(),
    ensures
        r matches Some(i) ==> find_from(s@, start as int, b) == Some(i as int),
        r is None ==> find_from(s@, start as int, b) is None,
{
    let mut i = start;
    while i < s.len()
        invariant
            start <= i <= s@.len(),
            find_from(s@, start as int, b) == find_from(s@, i as int, b),
        decreases s@.len() - i,
    {
        if s[i] == b {
            return Some(i);
        }
        i = i + 1;
    }
    None
}

/// The number that the digits in `s[start..end]` write, where they are all
/// digits and the number is at most `bound`.
fn parse_digits(s: &[u8], start: usize, end: usize, bound: u64) -> (r: Option<u64>)
    requires
        start <= end <= s@.len(),
        bound >= 9,
    ensures
        ({
            let t = s@.subrange(start as int, end as int);
            match r {
                Some(n) => all_digits(t) && digits_value(t) <= bound && n == digits_value(t),
                None => !all_digits(t) || digits_value(t) > bound,
            }
        }),
{
    let ghost t = s@.subrange(start as int, end as int);
    let mut acc: u64 = 0;
    let mut i = start;
    while i < end
        invariant
            start <= i <= end <= s@.len(),
            t == s@.subrange(start as int, end as int),
            bound >= 9,
            all_digits(s@.subrange(start as int, i as int)),
            acc == digits_value(s@.subrange(start as int, i as int)),
            acc <= bound,
        decreases end - i,
    {
        let c = s[i];
        if c < 0x30 || c > 0x39 {
            assert(t[i - start] == c);
            return None;
        }
        let d = (c - 0x30) as u64;
        let ghost next = s@.subrange(start as int, i + 1);
        assert(next.drop_last() =~= s@.subrange(start as int, i as int));
        assert(all_digits(next)) by {
            assert forall|k: int| 0 <= k < next.len() implies is_digit(#[trigger] next[k]) by {
                if k < next.len() - 1 {
                    assert(next[k] == s@.subrange(start as int, i as int)[k]);
                }
            }
        }
        if acc > (bound - d) / 10 {
            proof {
                assert(acc * 10 + d > bound) by (nonlinear_arith)
                    requires
                        acc > (bound - d) / 10,
                        d <= 9,
                        bound >= 9,
                ;
                assert(t.take(i + 1 - start) =~= next);
                if all_digits(t) {
                    lemma_digits_monotone(t, i + 1 - start);
                }
            }
            return None;
        }
        assert(acc * 10 + d <= bound) by (nonlinear_arith)
            requires
                acc <= (bound - d) / 10,
                d <= 9,
                bound >= 9,
        ;
        acc = acc * 10 + d;
        i = i + 1;
    }
    assert(s@.subrange(start as int, i as int) =~= t);
    Some(acc)
}

/// The model of a vector of values.
pub open spec fn values_view(items: Seq<BencodeValue>) -> Seq<Bencode> {
    items.map_values(|x: BencodeValue| x@)
}

fn decode_at(s: &[u8], pos: usize, depth: usize) -> (r: Result<(BencodeValue, usize), DecodeError>)
    requires
        pos <= s@.len(),
        depth <= MAX_DEPTH,
    ensures
        match r {
            Ok((v, q)) => parse_value(s@, pos as int, depth as nat) == Ok::<_, DecodeError>((v@, q as int)),
            Err(e) => parse_value(s@, pos as int, depth as nat) == Err::<(Bencode, int), _>(e),
        },
    decreases s@.len() - pos, 0nat,
{
    if pos >= s.len() {
        return Err(DecodeError::UnknownValueTag);
    }
    let c = s[pos];
    if 0x30 <= c && c <= 0x39 {
        let colon = match find_byte(s, pos, 0x3a) {
            None => {
                return Err(DecodeError::TruncatedInput);
            },
            Some(colon) => colon,
        };
        proof {
            lemma_find_from(s@, pos as int, 0x3a);
        }
        let n = match parse_digits(s, pos, colon, usize::MAX as u64) {
            None => {
                return Err(DecodeError::MalformedLength);
            },
            Some(n) => n as usize,
        };
        if n > s.len() - (colon + 1) {
            return Err(DecodeError::TruncatedInput);
        }
        let bytes = vstd::slice::slice_to_vec(
            vstd::slice::slice_subrange(s, colon + 1, colon + 1 + n),
        );
        Ok((BencodeValue::ByteString(bytes), colon + 1 + n))
    } else if c == 0x69 {
        let start = pos + 1;
        let e = match find_byte(s, start, 0x65) {
            None => {
                return Err(DecodeError::TruncatedInput);
            },
            Some(e) => e,
        };
        proof {
            lemma_find_from(s@, start as int, 0x65);
        }
        let ghost t = s@.subrange(start as int, e as int);
        if e == start + 1 && s[start] == 0x30 {
            assert(t =~= seq![0x30u8]);
            Ok((BencodeValue::Integer(0), e + 1))
        } else if e > start + 1 && s[start] == 0x2d && s[start + 1] != 0x30 {
            assert(t.len() > 1);
            assert(t != seq![0x30u8]);
            assert(t.drop_first() =~= s@.subrange(start + 1, e as int));
            match parse_digits(s, start + 1, e, 0x8000_0000_0000_0000u64) {
                None => Err(DecodeError::MalformedInteger),
                Some(m) => {
                    let n: i64 = if m == 0x8000_0000_0000_0000u64 {
                        i64::MIN
                    } else {
                        -(m as i64)
                    };
                    Ok((BencodeValue::Integer(n), e + 1))
                },
            }
        } else if e > start && s[start] != 0x30 {
            assert(t[0] == s@[start as int]);
            assert(seq![0x30u8][0] == 0x30u8);
            assert(t != seq![0x30u8]);
            if s[start] == 0x2d {
                assert(!is_digit(t[0]));
            }
            match parse_digits(s, start, e, i64::MAX as u64) {
                None => Err(DecodeError::MalformedInteger),
                Some(m) => Ok((BencodeValue::Integer(m as i64), e + 1)),
            }
        } else {
            if e > start {
                assert(!is_digit(t[0]) || t[0] == 0x30);
            }
            Err(DecodeError::MalformedInteger)
        }
    } else if c == 0x6c {
        if depth >= MAX_DEPTH {
            return Err(DecodeError::NestingTooDeep);
        }
        match decode_list(s, pos + 1, depth + 1) {
            Ok((items, q)) => {
                let ghost iv = items@;
                let v = BencodeValue::List(items);
                assert(v@->List_0 =~= values_view(iv));
                Ok((v, q))
            },
            Err(e) => Err(e),
        }
    } else if c == 0x64 {
        if depth >= MAX_DEPTH {
            return Err(DecodeError::NestingTooDeep);
        }
        match decode_dict(s, pos + 1, depth + 1) {
            Ok((es, q)) => {
                let ghost ev = es@;
                let v = BencodeValue::Dictionary(es);
                assert(v@->Dict_0 =~= entries_view(ev));
                Ok((v, q))
            },
            Err(e) => Err(e),
        }
    } else {
        Err(DecodeError::UnknownValueTag)
    }
}

fn decode_list(s: &[u8], pos: usize, depth: usize) -> (r: Result<(Vec<BencodeValue>, usize), DecodeError>)
    requires
        pos <= s@.len(),
        depth <= MAX_DEPTH,
    ensures
        match r {
            Ok((items, q)) => parse_list_items(s@, pos as int, depth as nat) == Ok::<_, DecodeError>((values_view(items@), q as int)),
            Err(e) => parse_list_items(s@, pos as int, depth as nat) == Err::<(Seq<Bencode>, int), _>(e),
        },
    decreases s@.len() - pos, 1nat,
{
    let mut items: Vec<BencodeValue> = Vec::new();
    let mut p = pos;
    loop
        invariant
            pos <= p <= s@.len(),
            depth <= MAX_DEPTH,
            parse_list_items(s@, pos as int, depth as nat) == match parse_list_items(s@, p as int, depth as nat) {
                Ok((rest, q)) => Ok((values_view(items@) + rest, q)),
                Err(e) => Err(e),
            },
        decreases s@.len() - p,
    {
        if p >= s.len() {
            return Err(DecodeError::TruncatedInput);
        }
        if s[p] == 0x65 {
            assert(values_view(items@) + Seq::<Bencode>::empty() =~= values_view(items@));
            return Ok((items, p + 1));
        }
        match decode_at(s, p, depth) {
            Err(e) => {
                return Err(e);
            },
            Ok((v, q)) => {
                proof {
                    lemma_value_advances(s@, p as int, depth as nat);
                }
                let ghost before = values_view(items@);
                let ghost vv = v@;
                items.push(v);
                assert(values_view(items@) =~= before.push(vv));
                proof {
                    match parse_list_items(s@, q as int, depth as nat) {
                        Ok((rest, _)) => {
                            assert(before + (seq![vv] + rest) =~= before.push(vv) + rest);
                        },
                        Err(_) => {},
                    }
                }
                p = q;
            },
        }
    }
}

fn decode_dict(s: &[u8], pos: usize, depth: usize) -> (r: Result<(Vec<(Vec<u8>, BencodeValue)>, usize), DecodeError>)
    requires
        pos <= s@.len(),
        depth <= MAX_DEPTH,
    ensures
        match r {
            Ok((es, q)) => match parse_dict_items(s@, pos as int, depth as nat) {
                Ok((pairs, t)) => entries_view(es@) == dict_from_pairs(pairs) && q == t,
                Err(_) => false,
            },
            Err(e) => parse_dict_items(s@, pos as int, depth as nat) == Err::<(Seq<(Seq<u8>, Bencode)>, int), _>(e),
        },
    decreases s@.len() - pos, 1nat,
{
    let mut es: Vec<(Vec<u8>, BencodeValue)> = Vec::new();
    let ghost pairs: Seq<(Seq<u8>, Bencode)> = Seq::empty();
    let mut p = pos;
    assert(entries_view(es@) =~= dict_from_pairs(pairs));
    loop
        invariant
            pos <= p <= s@.len(),
            depth <= MAX_DEPTH,
            entries_view(es@) == dict_from_pairs(pairs),
            parse_dict_items(s@, pos as int, depth as nat) == match parse_dict_items(s@, p as int, depth as nat) {
                Ok((rest, q)) => Ok((pairs + rest, q)),
                Err(e) => Err(e),
            },
        decreases s@.len() - p,
    {
        if p >= s.len() {
            return Err(DecodeError::TruncatedInput);
        }
        if s[p] == 0x65 {
            assert(pairs + Seq::<(Seq<u8>, Bencode)>::empty() =~= pairs);
            return Ok((es, p + 1));
        }
        let (key, q) = match decode_at(s, p, depth) {
            Err(e) => {
                return Err(e);
            },
            Ok(kq) => kq,
        };
        proof {
            lemma_value_advances(s@, p as int, depth as nat);
        }
        let k = match key {
            BencodeValue::ByteString(k) => k,
            _ => {
                return Err(DecodeError::NonStringKey);
            },
        };
        let (v, r) = match decode_at(s, q, depth) {
            Err(e) => {
                return Err(e);
            },
            Ok(vr) => vr,
        };
        proof {
            lemma_value_advances(s@, q as int, depth as nat);
        }
        let ghost kv = (k@, v@);
        insert_entry(&mut es, k, v);
        proof {
            assert(pairs.push(kv).drop_last() =~= pairs);
            match parse_dict_items(s@, r as int, depth as nat) {
                Ok((rest, _)) => {
                    assert(pairs + (seq![kv] + rest) =~= pairs.push(kv) + rest);
                },
                Err(_) => {},
            }
            pairs = pairs.push(kv);
        }
        p = r;
    }
}

/// Decodes the bencoded value at the start of `bytes`, and hands back the
/// bytes after it. Dictionary keys may come in any order; the result holds
/// them sorted, and of a key written twice the later value stays.
pub fn decode(bytes: &[u8]) -> (r: Result<(BencodeValue, &[u8]), DecodeError>)
    ensures
        match r {
            Ok((v, rest)) => {
                &&& parse_value(bytes@, 0, 0) == Ok::<_, DecodeError>((v@, bytes@.len() - rest@.len()))
                &&& rest@ == bytes@.skip(bytes@.len() - rest@.len())
                &&& well_formed(v@)
            },
            Err(e) => parse_value(bytes@, 0, 0) == Err::<(Bencode, int), _>(e),
        },
{
    match decode_at(bytes, 0, 0) {
        Ok((v, q)) => {
            proof {
                lemma_value_advances(bytes@, 0, 0);
                lemma_value_well_formed(bytes@, 0, 0);
            }
            let rest = vstd::slice::slice_subrange(bytes, q, bytes.len());
            assert(rest@ =~= bytes@.skip(q as int));
            Ok((v, rest))
        },
        Err(e) => Err(e),
    }
}

} // verus!
