//! What bencoded data means: values, their encoding and the inputs that stand for them.

use crate::bytes::{lemma_lex_irreflexive, lemma_lex_total, lemma_lex_transitive, lex_less};
use crate::decimal::{
    decimal, decimal_int, digits_value, is_digit, law_numeral_value, lemma_decimal,
    lemma_numeral_round_trip, numeral_value,
};
use vstd::prelude::*;

verus! {

/// A bencoded value. A dictionary is the sequence of its entries.
pub enum Value {
    Int(i64),
    Str(Seq<u8>),
    List(Seq<Value>),
    Dict(Seq<(Seq<u8>, Value)>),
}

/// The value that a dictionary holds under `key`.
pub open spec fn dict_get(d: Seq<(Seq<u8>, Value)>, key: Seq<u8>) -> Option<Value>
    decreases d.len(),
{
    if d.len() == 0 {
        None
    } else if d[0].0 == key {
        Some(d[0].1)
    } else {
        dict_get(d.skip(1), key)
    }
}

/// A dictionary with `value` put under `key`, at the place where the order of keys has it.
pub open spec fn dict_insert(d: Seq<(Seq<u8>, Value)>, key: Seq<u8>, value: Value) -> Seq<
    (Seq<u8>, Value),
>
    decreases d.len(),
{
    if d.len() == 0 {
        seq![(key, value)]
    } else if d[0].0 == key {
        seq![(key, value)] + d.skip(1)
    } else if lex_less(key, d[0].0) {
        seq![(key, value)] + d
    } else {
        seq![d[0]] + dict_insert(d.skip(1), key, value)
    }
}

/// The dictionary made by inserting `pairs` one after the other.
pub open spec fn dict_of(pairs: Seq<(Seq<u8>, Value)>) -> Seq<(Seq<u8>, Value)>
    decreases pairs.len(),
{
    if pairs.len() == 0 {
        seq![]
    } else {
        dict_insert(dict_of(pairs.drop_last()), pairs.last().0, pairs.last().1)
    }
}

/// Whether the keys of a dictionary strictly increase.
pub open spec fn sorted(d: Seq<(Seq<u8>, Value)>) -> bool {
    forall|i: int, j: int|
        0 <= i < j < d.len() ==> lex_less(#[trigger] d[i].0, #[trigger] d[j].0)
}

/// Whether every dictionary in a value is sorted and every string is short enough for
/// its length to be written as a 64-bit number.
pub open spec fn well_formed(v: Value) -> bool
    decreases v,
{
    match v {
        Value::Int(_) => true,
        Value::Str(s) => s.len() <= i64::MAX,
        Value::List(l) => forall|i: int| 0 <= i < l.len() ==> well_formed(#[trigger] l[i]),
        Value::Dict(d) => sorted(d) && forall|i: int|
            0 <= i < d.len() ==> (#[trigger] d[i]).0.len() <= i64::MAX && well_formed(d[i].1),
    }
}

/// The encoding of a byte string, such as `4:spam`.
pub open spec fn encode_str(s: Seq<u8>) -> Seq<u8> {
    decimal(s.len()) + seq![':' as u8] + s
}

/// The encoding of a value.
pub open spec fn encode(v: Value) -> Seq<u8>
    decreases v,
{
    match v {
        Value::Int(i) => seq!['i' as u8] + decimal_int(i as int) + seq!['e' as u8],
        Value::Str(s) => encode_str(s),
        Value::List(l) => seq!['l' as u8] + encode_items(l) + seq!['e' as u8],
        Value::Dict(d) => seq!['d' as u8] + encode_entries(d) + seq!['e' as u8],
    }
}

/// The encodings of the items of a list, one behind the other.
pub open spec fn encode_items(l: Seq<Value>) -> Seq<u8>
    decreases l,
{
    if l.len() == 0 {
        seq![]
    } else {
        encode(l[0]) + encode_items(l.skip(1))
    }
}

/// The encodings of the keys and values of a dictionary, one behind the other.
pub open spec fn encode_entries(d: Seq<(Seq<u8>, Value)>) -> Seq<u8>
    decreases d,
{
    if d.len() == 0 {
        seq![]
    } else {
        encode_str(d[0].0) + encode(d[0].1) + encode_entries(d.skip(1))
    }
}

/// How many of the first bytes are digits or minus signs.
pub open spec fn number_span(b: Seq<u8>) -> nat
    decreases b.len(),
{
    if b.len() > 0 && (b[0] == '-' as u8 || is_digit(b[0])) {
        1 + number_span(b.skip(1))
    } else {
        0
    }
}

/// A number at the start of `b`, and what follows it.
pub open spec fn parse_number(b: Seq<u8>) -> Option<(i64, Seq<u8>)> {
    let n = number_span(b) as int;
    match numeral_value(b.take(n)) {
        Some(i) => Some((i, b.skip(n))),
        None => None,
    }
}

/// An integer such as `i42e` at the start of `b`, and what follows it.
pub open spec fn decode_number(b: Seq<u8>) -> Option<(i64, Seq<u8>)> {
    if b.len() > 0 && b[0] == 'i' as u8 {
        match parse_number(b.skip(1)) {
            Some((i, rest)) => if rest.len() > 0 && rest[0] == 'e' as u8 {
                Some((i, rest.skip(1)))
            } else {
                None
            },
            None => None,
        }
    } else {
        None
    }
}

/// A byte string such as `4:spam` at the start of `b`, and what follows it.
pub open spec fn decode_str(b: Seq<u8>) -> Option<(Seq<u8>, Seq<u8>)> {
    match parse_number(b) {
        Some((n, rest)) => if rest.len() > 0 && rest[0] == ':' as u8 && 0 <= n < rest.len() {
            Some((rest.subrange(1, 1 + n), rest.skip(1 + n)))
        } else {
            None
        },
        None => None,
    }
}

/// A value at the start of `b`, and what follows it.
pub open spec fn decode(b: Seq<u8>) -> Option<(Value, Seq<u8>)>
    decreases b.len(), 0int,
{
    if b.len() == 0 {
        None
    } else if is_digit(b[0]) {
        match decode_str(b) {
            Some((s, rest)) => Some((Value::Str(s), rest)),
            None => None,
        }
    } else if b[0] == 'i' as u8 {
        match decode_number(b) {
            Some((i, rest)) => Some((Value::Int(i), rest)),
            None => None,
        }
    } else if b[0] == 'l' as u8 {
        match decode_items(b.skip(1), seq![]) {
            Some((l, rest)) => Some((Value::List(l), rest)),
            None => None,
        }
    } else if b[0] == 'd' as u8 {
        match decode_entries(b.skip(1), seq![]) {
            Some((d, rest)) => Some((Value::Dict(d), rest)),
            None => None,
        }
    } else {
        None
    }
}

/// The list whose first items are `l` and whose others, up to a closing `e`, are at the
/// start of `b`; and what follows it. (What follows a value is always shorter than the
/// input it was read from.)
pub open spec fn decode_items(b: Seq<u8>, l: Seq<Value>) -> Option<(Seq<Value>, Seq<u8>)>
    decreases b.len(), 1int,
{
    if b.len() == 0 {
        None
    } else if b[0] == 'e' as u8 {
        Some((l, b.skip(1)))
    } else {
        match decode(b) {
            Some((v, rest)) => if rest.len() < b.len() {
                decode_items(rest, l.push(v))
            } else {
                None
            },
            None => None,
        }
    }
}

/// The dictionary `d` with the entries inserted that are at the start of `b`, up to a
/// closing `e`; and what follows them. Of several values under one key the last counts.
pub open spec fn decode_entries(b: Seq<u8>, d: Seq<(Seq<u8>, Value)>) -> Option<
    (Seq<(Seq<u8>, Value)>, Seq<u8>),
>
    decreases b.len(), 1int,
{
    if b.len() == 0 {
        None
    } else if b[0] == 'e' as u8 {
        Some((d, b.skip(1)))
    } else {
        match decode_str(b) {
            Some((key, after)) => if after.len() < b.len() {
                match decode(after) {
                    Some((v, rest)) => if rest.len() < b.len() {
                        decode_entries(rest, dict_insert(d, key, v))
                    } else {
                        None
                    },
                    None => None,
                }
            } else {
                None
            },
            None => None,
        }
    }
}

/// What was put under a key is found there, and what other keys hold is unchanged.
pub proof fn law_dict_get_insert(
    d: Seq<(Seq<u8>, Value)>,
    key: Seq<u8>,
    value: Value,
    other: Seq<u8>,
)
    ensures
        dict_get(dict_insert(d, key, value), other) == (if other == key {
            Some(value)
        } else {
            dict_get(d, other)
        }),
    decreases d.len(),
{
    let e = dict_insert(d, key, value);
    reveal_with_fuel(dict_get, 2);
    if d.len() == 0 {
        assert(e.skip(1) =~= seq![]);
    } else if d[0].0 == key {
        assert(e.skip(1) =~= d.skip(1));
    } else if lex_less(key, d[0].0) {
        assert(e.skip(1) =~= d);
    } else {
        assert(e.skip(1) =~= dict_insert(d.skip(1), key, value));
        law_dict_get_insert(d.skip(1), key, value, other);
    }
}

/// A dictionary that is less than `bound` in none of its keys stays so by an insert
/// under a key above it.
proof fn lemma_insert_above(
    d: Seq<(Seq<u8>, Value)>,
    key: Seq<u8>,
    value: Value,
    bound: Seq<u8>,
)
    requires
        lex_less(bound, key),
        forall|i: int| 0 <= i < d.len() ==> lex_less(bound, #[trigger] d[i].0),
    ensures
        forall|i: int|
            0 <= i < dict_insert(d, key, value).len() ==> lex_less(
                bound,
                #[trigger] dict_insert(d, key, value)[i].0,
            ),
    decreases d.len(),
{
    let e = dict_insert(d, key, value);
    if d.len() > 0 && d[0].0 != key && !lex_less(key, d[0].0) {
        let t = d.skip(1);
        assert forall|i: int| 0 <= i < t.len() implies lex_less(bound, #[trigger] t[i].0) by {
            assert(t[i] == d[i + 1]);
        }
        lemma_insert_above(t, key, value, bound);
        assert forall|i: int| 0 <= i < e.len() implies lex_less(bound, #[trigger] e[i].0) by {
            if i > 0 {
                assert(e[i] == dict_insert(t, key, value)[i - 1]);
            } else {
                assert(e[0] == d[0]);
            }
        }
    } else {
        assert forall|i: int| 0 <= i < e.len() implies lex_less(bound, #[trigger] e[i].0) by {
            if i > 0 {
                if d[0].0 == key {
                    assert(e[i] == d[i]);
                } else {
                    assert(e[i] == d[i - 1]);
                }
            }
        }
    }
}

/// An insert keeps a dictionary sorted.
pub proof fn law_dict_insert_sorted(d: Seq<(Seq<u8>, Value)>, key: Seq<u8>, value: Value)
    requires
        sorted(d),
    ensures
        sorted(dict_insert(d, key, value)),
    decreases d.len(),
{
    let e = dict_insert(d, key, value);
    if d.len() == 0 {
    } else if d[0].0 == key {
        assert forall|i: int, j: int| 0 <= i < j < e.len() implies lex_less(
            #[trigger] e[i].0,
            #[trigger] e[j].0,
        ) by {
            assert(e[j] == d[j]);
            assert(e[i].0 == d[i].0);
        }
    } else if lex_less(key, d[0].0) {
        assert forall|i: int, j: int| 0 <= i < j < e.len() implies lex_less(
            #[trigger] e[i].0,
            #[trigger] e[j].0,
        ) by {
            assert(e[j] == d[j - 1]);
            if i > 0 {
                assert(e[i] == d[i - 1]);
            } else if j > 1 {
                assert(lex_less(d[0].0, d[j - 1].0));
                lemma_lex_transitive(key, d[0].0, d[j - 1].0);
            }
        }
    } else {
        let t = d.skip(1);
        assert forall|i: int, j: int| 0 <= i < j < t.len() implies lex_less(
            #[trigger] t[i].0,
            #[trigger] t[j].0,
        ) by {
            assert(t[i] == d[i + 1]);
            assert(t[j] == d[j + 1]);
        }
        law_dict_insert_sorted(t, key, value);
        lemma_lex_total(key, d[0].0);
        assert forall|i: int| 0 <= i < t.len() implies lex_less(d[0].0, #[trigger] t[i].0) by {
            assert(t[i] == d[i + 1]);
        }
        lemma_insert_above(t, key, value, d[0].0);
        let f = dict_insert(t, key, value);
        assert forall|i: int, j: int| 0 <= i < j < e.len() implies lex_less(
            #[trigger] e[i].0,
            #[trigger] e[j].0,
        ) by {
            assert(e[j] == f[j - 1]);
            if i > 0 {
                assert(e[i] == f[i - 1]);
            }
        }
    }
}

/// What `dict_insert` gives where the place of the key is known.
pub proof fn lemma_dict_insert_at(
    d: Seq<(Seq<u8>, Value)>,
    key: Seq<u8>,
    value: Value,
    p: int,
)
    requires
        0 <= p <= d.len(),
        forall|i: int| 0 <= i < p ==> lex_less(#[trigger] d[i].0, key),
        p < d.len() ==> d[p].0 == key || lex_less(key, d[p].0),
    ensures
        dict_insert(d, key, value) == (if p < d.len() && d[p].0 == key {
            d.update(p, (key, value))
        } else {
            d.insert(p, (key, value))
        }),
    decreases d.len(),
{
    if d.len() == 0 {
        assert(d.insert(p, (key, value)) =~= seq![(key, value)]);
    } else if p == 0 {
        lemma_lex_irreflexive(key);
        if d[0].0 == key {
            assert(d.update(p, (key, value)) =~= seq![(key, value)] + d.skip(1));
        } else {
            assert(d.insert(p, (key, value)) =~= seq![(key, value)] + d);
        }
    } else {
        assert(lex_less(d[0].0, key));
        if lex_less(key, d[0].0) || d[0].0 == key {
            lemma_lex_irreflexive(key);
            if lex_less(key, d[0].0) {
                lemma_lex_transitive(key, d[0].0, key);
            }
        }
        let t = d.skip(1);
        assert forall|i: int| 0 <= i < p - 1 implies lex_less(#[trigger] t[i].0, key) by {
            assert(t[i] == d[i + 1]);
        }
        lemma_dict_insert_at(t, key, value, p - 1);
        if p < d.len() && d[p].0 == key {
            assert(d.update(p, (key, value)) =~= seq![d[0]] + t.update(p - 1, (key, value)));
        } else {
            assert(d.insert(p, (key, value)) =~= seq![d[0]] + t.insert(p - 1, (key, value)));
        }
    }
}

pub proof fn lemma_number_span_bound(b: Seq<u8>)
    ensures
        number_span(b) <= b.len(),
    decreases b.len(),
{
    if b.len() > 0 {
        lemma_number_span_bound(b.skip(1));
    }
}

/// What follows a byte string is an end of the input, and shorter than it.
pub proof fn lemma_decode_str_rest(b: Seq<u8>)
    ensures
        decode_str(b) matches Some((s, rest)) ==> {
            &&& rest.len() < b.len()
            &&& s.len() < b.len()
            &&& rest == b.skip(b.len() - rest.len())
        },
{
    lemma_number_span_bound(b);
    if let Some((s, rest)) = decode_str(b) {
        assert(rest =~= b.skip(b.len() - rest.len()));
    }
}

/// What follows a value is an end of the input, and shorter than it.
pub proof fn law_decode_rest(b: Seq<u8>)
    ensures
        decode(b) matches Some((_, rest)) ==> rest.len() < b.len() && rest == b.skip(
            b.len() - rest.len(),
        ),
    decreases b.len(), 0int,
{
    if b.len() > 0 {
        lemma_decode_str_rest(b);
        lemma_number_span_bound(b.skip(1));
        if let Some((_, rest)) = decode(b) {
            if b[0] == 'l' as u8 {
                lemma_items_rest(b.skip(1), seq![]);
            } else if b[0] == 'd' as u8 {
                lemma_entries_rest(b.skip(1), seq![]);
            }
            assert(rest =~= b.skip(b.len() - rest.len()));
        }
    }
}

proof fn lemma_items_rest(b: Seq<u8>, l: Seq<Value>)
    ensures
        decode_items(b, l) matches Some((_, rest)) ==> rest.len() < b.len() && rest == b.skip(
            b.len() - rest.len(),
        ),
    decreases b.len(), 1int,
{
    if b.len() > 0 && b[0] != 'e' as u8 {
        law_decode_rest(b);
        if let Some((v, after)) = decode(b) {
            lemma_items_rest(after, l.push(v));
            if let Some((_, rest)) = decode_items(b, l) {
                assert(rest =~= b.skip(b.len() - rest.len()));
            }
        }
    }
}

proof fn lemma_entries_rest(b: Seq<u8>, d: Seq<(Seq<u8>, Value)>)
    ensures
        decode_entries(b, d) matches Some((_, rest)) ==> rest.len() < b.len() && rest == b.skip(
            b.len() - rest.len(),
        ),
    decreases b.len(), 1int,
{
    if b.len() > 0 && b[0] != 'e' as u8 {
        lemma_decode_str_rest(b);
        if let Some((key, middle)) = decode_str(b) {
            law_decode_rest(middle);
            if let Some((v, after)) = decode(middle) {
                lemma_entries_rest(after, dict_insert(d, key, v));
                if let Some((_, rest)) = decode_entries(b, d) {
                    assert(rest =~= b.skip(b.len() - rest.len()));
                }
            }
        }
    }
}

/// What is decoded is well formed: dictionaries come out sorted, in whatever order their
/// keys stand in the input.
pub proof fn law_decode_well_formed(b: Seq<u8>)
    requires
        b.len() <= i64::MAX,
    ensures
        decode(b) matches Some((v, _)) ==> well_formed(v),
    decreases b.len(), 0int,
{
    if b.len() > 0 {
        lemma_decode_str_rest(b);
        if b[0] == 'l' as u8 {
            lemma_items_well_formed(b.skip(1), seq![]);
        } else if b[0] == 'd' as u8 {
            lemma_entries_well_formed(b.skip(1), seq![]);
        }
    }
}

proof fn lemma_items_well_formed(b: Seq<u8>, l: Seq<Value>)
    requires
        b.len() <= i64::MAX,
        forall|i: int| 0 <= i < l.len() ==> well_formed(#[trigger] l[i]),
    ensures
        decode_items(b, l) matches Some((m, _)) ==> well_formed(Value::List(m)),
    decreases b.len(), 1int,
{
    if b.len() > 0 && b[0] != 'e' as u8 {
        law_decode_well_formed(b);
        if let Some((v, rest)) = decode(b) {
            if rest.len() < b.len() {
                assert forall|i: int| 0 <= i < l.push(v).len() implies well_formed(
                    #[trigger] l.push(v)[i],
                ) by {
                    if i < l.len() {
                        assert(l.push(v)[i] == l[i]);
                    } else {
                        assert(l.push(v)[i] == v);
                    }
                }
                lemma_items_well_formed(rest, l.push(v));
            }
        }
    }
}

proof fn lemma_entries_well_formed(b: Seq<u8>, d: Seq<(Seq<u8>, Value)>)
    requires
        b.len() <= i64::MAX,
        well_formed(Value::Dict(d)),
    ensures
        decode_entries(b, d) matches Some((e, _)) ==> well_formed(Value::Dict(e)),
    decreases b.len(), 1int,
{
    if b.len() > 0 && b[0] != 'e' as u8 {
        lemma_decode_str_rest(b);
        if let Some((key, after)) = decode_str(b) {
            law_decode_well_formed(after);
            if let Some((v, rest)) = decode(after) {
                if rest.len() < b.len() {
                    law_dict_insert_sorted(d, key, v);
                    lemma_insert_well_formed(d, key, v);
                    lemma_entries_well_formed(rest, dict_insert(d, key, v));
                }
            }
        }
    }
}

/// An insert keeps the parts of a dictionary well formed.
pub proof fn lemma_insert_well_formed(d: Seq<(Seq<u8>, Value)>, key: Seq<u8>, v: Value)
    requires
        key.len() <= i64::MAX,
        well_formed(v),
        forall|i: int|
            0 <= i < d.len() ==> (#[trigger] d[i]).0.len() <= i64::MAX && well_formed(d[i].1),
    ensures
        forall|i: int|
            0 <= i < dict_insert(d, key, v).len() ==> (#[trigger] dict_insert(
                d,
                key,
                v,
            )[i]).0.len() <= i64::MAX && well_formed(dict_insert(d, key, v)[i].1),
    decreases d.len(),
{
    let e = dict_insert(d, key, v);
    let t = d.skip(1);
    if d.len() > 0 && d[0].0 != key && !lex_less(key, d[0].0) {
        assert forall|i: int| 0 <= i < t.len() implies (#[trigger] t[i]).0.len() <= i64::MAX
            && well_formed(t[i].1) by {
            assert(t[i] == d[i + 1]);
        }
        lemma_insert_well_formed(t, key, v);
    }
    assert forall|i: int| 0 <= i < e.len() implies (#[trigger] e[i]).0.len() <= i64::MAX
        && well_formed(e[i].1) by {
        if i > 0 {
            if d[0].0 == key {
                assert(e[i] == d[i]);
            } else if lex_less(key, d[0].0) {
                assert(e[i] == d[i - 1]);
            } else {
                assert(e[i] == dict_insert(t, key, v)[i - 1]);
            }
        } else if d.len() > 0 && d[0].0 != key && !lex_less(key, d[0].0) {
            assert(e[0] == d[0]);
        }
    }
}

/// A numeral followed by a byte that is none of a number's is read up to that byte.
proof fn lemma_number_span(s: Seq<u8>, rest: Seq<u8>)
    requires
        forall|i: int| 0 <= i < s.len() ==> #[trigger] s[i] == '-' as u8 || is_digit(s[i]),
        rest.len() > 0,
        rest[0] != '-' as u8 && !is_digit(rest[0]),
    ensures
        number_span(s + rest) == s.len(),
    decreases s.len(),
{
    if s.len() == 0 {
        assert(s + rest =~= rest);
    } else {
        let t = s.skip(1);
        assert forall|i: int| 0 <= i < t.len() implies #[trigger] t[i] == '-' as u8 || is_digit(
            t[i],
        ) by {
            assert(t[i] == s[i + 1]);
        }
        lemma_number_span(t, rest);
        assert((s + rest).skip(1) =~= t + rest);
        assert((s + rest)[0] == s[0]);
    }
}

proof fn lemma_parse_number(i: i64, rest: Seq<u8>)
    requires
        rest.len() > 0,
        rest[0] != '-' as u8 && !is_digit(rest[0]),
    ensures
        parse_number(decimal_int(i as int) + rest) == Some((i, rest)),
{
    let s = decimal_int(i as int);
    lemma_numeral_round_trip(i);
    if i < 0 {
        lemma_decimal((-i) as nat);
        assert forall|k: int| 0 <= k < s.len() implies #[trigger] s[k] == '-' as u8 || is_digit(
            s[k],
        ) by {
            if k > 0 {
                assert(s[k] == decimal((-i) as nat)[k - 1]);
            }
        }
    } else {
        lemma_decimal(i as nat);
    }
    lemma_number_span(s, rest);
    assert((s + rest).take(s.len() as int) =~= s);
    assert((s + rest).skip(s.len() as int) =~= rest);
}

/// An encoded byte string is read back.
pub proof fn law_decode_encode_str(s: Seq<u8>, rest: Seq<u8>)
    requires
        s.len() <= i64::MAX,
    ensures
        decode_str(encode_str(s) + rest) == Some((s, rest)),
        is_digit(encode_str(s)[0]),
{
    let n = s.len() as i64;
    let tail = seq![':' as u8] + s + rest;
    lemma_decimal(s.len());
    assert(decimal_int(n as int) == decimal(s.len()));
    assert(tail[0] == ':' as u8);
    lemma_parse_number(n, tail);
    assert(encode_str(s) + rest =~= decimal(s.len()) + tail);
    assert(tail.subrange(1, 1 + n) =~= s);
    assert(tail.skip(1 + n) =~= rest);
    assert(encode_str(s)[0] == decimal(s.len())[0]);
}

/// Decoding what was encoded gives the value back, whatever bytes follow it.
pub proof fn law_decode_encode(v: Value, rest: Seq<u8>)
    requires
        well_formed(v),
    ensures
        decode(encode(v) + rest) == Some((v, rest)),
        encode(v).len() > 0,
        encode(v)[0] != 'e' as u8,
    decreases v,
{
    let b = encode(v) + rest;
    match v {
        Value::Int(i) => {
            let tail = seq!['e' as u8] + rest;
            assert(b.skip(1) =~= decimal_int(i as int) + tail);
            lemma_parse_number(i, tail);
            assert(tail.skip(1) =~= rest);
        },
        Value::Str(s) => {
            law_decode_encode_str(s, rest);
            assert(b[0] == encode_str(s)[0]);
        },
        Value::List(l) => {
            let tail = seq!['e' as u8] + rest;
            assert(b.skip(1) =~= encode_items(l) + tail);
            lemma_decode_items(l, seq![], rest);
            assert(seq![] + l =~= l);
        },
        Value::Dict(d) => {
            let tail = seq!['e' as u8] + rest;
            assert(b.skip(1) =~= encode_entries(d) + tail);
            lemma_decode_entries(d, seq![], rest);
            assert(seq![] + d =~= d);
        },
    }
}

proof fn lemma_decode_items(l: Seq<Value>, before: Seq<Value>, rest: Seq<u8>)
    requires
        forall|i: int| 0 <= i < l.len() ==> well_formed(#[trigger] l[i]),
    ensures
        decode_items(encode_items(l) + (seq!['e' as u8] + rest), before) == Some((before + l, rest)),
    decreases l,
{
    let tail = seq!['e' as u8] + rest;
    let b = encode_items(l) + tail;
    if l.len() == 0 {
        assert(b =~= tail);
        assert(tail.skip(1) =~= rest);
        assert(before + l =~= before);
    } else {
        let t = l.skip(1);
        let after = encode_items(t) + tail;
        law_decode_encode(l[0], after);
        assert(b =~= encode(l[0]) + after);
        assert(b[0] == encode(l[0])[0]);
        assert forall|i: int| 0 <= i < t.len() implies well_formed(#[trigger] t[i]) by {
            assert(t[i] == l[i + 1]);
        }
        lemma_decode_items(t, before.push(l[0]), rest);
        assert(before.push(l[0]) + t =~= before + l);
    }
}

proof fn lemma_decode_entries(
    d: Seq<(Seq<u8>, Value)>,
    before: Seq<(Seq<u8>, Value)>,
    rest: Seq<u8>,
)
    requires
        sorted(before + d),
        forall|i: int|
            0 <= i < d.len() ==> (#[trigger] d[i]).0.len() <= i64::MAX && well_formed(d[i].1),
    ensures
        decode_entries(encode_entries(d) + (seq!['e' as u8] + rest), before) == Some(
            (before + d, rest),
        ),
    decreases d,
{
    let tail = seq!['e' as u8] + rest;
    let b = encode_entries(d) + tail;
    if d.len() == 0 {
        assert(b =~= tail);
        assert(tail.skip(1) =~= rest);
        assert(before + d =~= before);
    } else {
        let t = d.skip(1);
        let (key, v) = d[0];
        let after = encode_entries(t) + tail;
        law_decode_encode(v, after);
        law_decode_encode_str(key, encode(v) + after);
        assert(b =~= encode_str(key) + (encode(v) + after));
        assert(b[0] == encode_str(key)[0]);
        let all = before + d;
        assert(all[before.len() as int] == d[0]);
        assert forall|i: int| 0 <= i < before.len() implies lex_less(
            #[trigger] before[i].0,
            key,
        ) by {
            assert(before[i] == all[i]);
            assert(lex_less(all[i].0, all[before.len() as int].0));
        }
        lemma_dict_insert_at(before, key, v, before.len() as int);
        assert(before.insert(before.len() as int, d[0]) =~= before.push(d[0]));
        assert forall|i: int| 0 <= i < t.len() implies (#[trigger] t[i]).0.len() <= i64::MAX
            && well_formed(t[i].1) by {
            assert(t[i] == d[i + 1]);
        }
        assert(before.push(d[0]) + t =~= all);
        lemma_decode_entries(t, before.push(d[0]), rest);
    }
}

/// An integer stands between `i` and `e`, a byte string behind its length and a colon, the
/// items of a list between `l` and `e`, and the entries of a dictionary between `d` and `e`.
pub proof fn law_encode(i: i64, s: Seq<u8>, l: Seq<Value>, d: Seq<(Seq<u8>, Value)>)
    ensures
        encode(Value::Int(i)) == seq![105u8] + decimal_int(i as int) + seq![101u8],
        encode(Value::Str(s)) == decimal(s.len()) + seq![58u8] + s,
        encode(Value::List(l)) == seq![108u8] + encode_items(l) + seq![101u8],
        encode(Value::Dict(d)) == seq![100u8] + encode_entries(d) + seq![101u8],
{
}

/// Items stand one behind the other.
pub proof fn law_encode_items(l: Seq<Value>, v: Value)
    ensures
        encode_items(Seq::empty()) == Seq::<u8>::empty(),
        encode_items(l.push(v)) == encode_items(l) + encode(v),
    decreases l.len(),
{
    let none = Seq::<u8>::empty();
    assert(encode_items(Seq::empty()) =~= none);
    if l.len() == 0 {
        assert(l.push(v).skip(1) =~= Seq::<Value>::empty());
        assert(l =~= Seq::<Value>::empty());
        assert(encode(v) + none =~= none + encode(v));
    } else {
        law_encode_items(l.skip(1), v);
        assert(l.push(v).skip(1) =~= l.skip(1).push(v));
        assert(encode(l[0]) + (encode_items(l.skip(1)) + encode(v)) =~= encode(l[0]) + encode_items(
            l.skip(1),
        ) + encode(v));
    }
}

/// Entries stand one behind the other, each value behind its key.
pub proof fn law_encode_entries(d: Seq<(Seq<u8>, Value)>, key: Seq<u8>, v: Value)
    ensures
        encode_entries(Seq::empty()) == Seq::<u8>::empty(),
        encode_entries(d.push((key, v))) == encode_entries(d) + encode(Value::Str(key)) + encode(v),
    decreases d.len(),
{
    let none = Seq::<u8>::empty();
    let (a, b) = (encode(Value::Str(key)), encode(v));
    assert(encode_entries(Seq::empty()) =~= none);
    if d.len() == 0 {
        assert(d.push((key, v)).skip(1) =~= Seq::<(Seq<u8>, Value)>::empty());
        assert(d =~= Seq::<(Seq<u8>, Value)>::empty());
        assert(a + b + none =~= none + a + b);
    } else {
        law_encode_entries(d.skip(1), key, v);
        assert(d.push((key, v)).skip(1) =~= d.skip(1).push((key, v)));
        let (x, y, z) = (encode_str(d[0].0), encode(d[0].1), encode_entries(d.skip(1)));
        assert(x + y + (z + a + b) =~= x + y + z + a + b);
    }
}

/// A value starts with a digit, or with one of the letters `i`, `l` and `d`.
pub proof fn law_decode_first(b: Seq<u8>)
    ensures
        decode(b) is Some ==> b.len() > 0 && (48 <= b[0] <= 57 || b[0] == 105 || b[0] == 108 || b[0]
            == 100),
        decode(b) matches Some((v, _)) ==> match v {
            Value::Str(_) => 48 <= b[0] <= 57,
            Value::Int(_) => b[0] == 105,
            Value::List(_) => b[0] == 108,
            Value::Dict(_) => b[0] == 100,
        },
{
}

/// A dictionary gives what it holds under a key: of sorted entries there is one at most.
pub proof fn law_dict_get(d: Seq<(Seq<u8>, Value)>, key: Seq<u8>)
    ensures
        match dict_get(d, key) {
            Some(v) => exists|i: int| 0 <= i < d.len() && #[trigger] d[i] == (key, v),
            None => forall|i: int| 0 <= i < d.len() ==> (#[trigger] d[i]).0 != key,
        },
        sorted(d) ==> forall|i: int|
            0 <= i < d.len() ==> dict_get(d, (#[trigger] d[i]).0) == Some(d[i].1),
    decreases d.len(),
{
    if d.len() > 0 {
        let rest = d.skip(1);
        law_dict_get(rest, key);
        if d[0].0 != key {
            match dict_get(d, key) {
                Some(v) => {
                    let i = choose|i: int| 0 <= i < rest.len() && #[trigger] rest[i] == (key, v);
                    assert(d[i + 1] == (key, v));
                },
                None => {
                    assert forall|i: int| 0 <= i < d.len() implies (#[trigger] d[i]).0 != key by {
                        if i > 0 {
                            assert(rest[i - 1] == d[i]);
                        }
                    }
                },
            }
        } else {
            assert(d[0] == (key, d[0].1));
        }
        if sorted(d) {
            assert forall|i: int, j: int| 0 <= i < j < rest.len() implies lex_less(
                #[trigger] rest[i].0,
                #[trigger] rest[j].0,
            ) by {
                assert(rest[i] == d[i + 1] && rest[j] == d[j + 1]);
            }
            assert forall|i: int| 0 <= i < d.len() implies dict_get(d, (#[trigger] d[i]).0) == Some(
                d[i].1,
            ) by {
                if i > 0 {
                    assert(rest[i - 1] == d[i]);
                    assert(lex_less(d[0].0, d[i].0));
                    lemma_lex_irreflexive(d[i].0);
                }
            }
        }
    }
}

/// Entries that are read are put into the dictionary one after the other.
proof fn lemma_decode_pairs(
    d: Seq<(Seq<u8>, Value)>,
    before: Seq<(Seq<u8>, Value)>,
    rest: Seq<u8>,
)
    requires
        forall|i: int|
            0 <= i < d.len() ==> (#[trigger] d[i]).0.len() <= i64::MAX && well_formed(d[i].1),
    ensures
        decode_entries(encode_entries(d) + (seq!['e' as u8] + rest), dict_of(before)) == Some(
            (dict_of(before + d), rest),
        ),
    decreases d.len(),
{
    let tail = seq!['e' as u8] + rest;
    let all = encode_entries(d) + tail;
    if d.len() == 0 {
        assert(all =~= tail);
        assert(tail.skip(1) =~= rest);
        assert(before + d =~= before);
    } else {
        let (key, value) = d[0];
        let others = encode_entries(d.skip(1)) + tail;
        assert(all =~= encode_str(key) + (encode(value) + others));
        law_decode_encode_str(key, encode(value) + others);
        law_decode_encode(value, others);
        assert(encode_str(key).len() > 0);
        assert(all[0] == encode_str(key)[0]);
        let next = before.push((key, value));
        assert(next.drop_last() =~= before);
        assert forall|i: int| 0 <= i < d.skip(1).len() implies (
        #[trigger] d.skip(1)[i]).0.len() <= i64::MAX && well_formed(d.skip(1)[i].1) by {
            assert(d.skip(1)[i] == d[i + 1]);
        }
        lemma_decode_pairs(d.skip(1), next, rest);
        assert(next + d.skip(1) =~= before + d);
        assert(dict_of(next) == dict_insert(dict_of(before), key, value));
    }
}

/// The entries of a dictionary are read in whatever order they stand, and of several values
/// under one key the last counts.
pub proof fn law_decode_entries(d: Seq<(Seq<u8>, Value)>, rest: Seq<u8>)
    requires
        forall|i: int|
            0 <= i < d.len() ==> (#[trigger] d[i]).0.len() <= i64::MAX && well_formed(d[i].1),
    ensures
        decode(encode(Value::Dict(d)) + rest) == Some((Value::Dict(dict_of(d)), rest)),
{
    let b = encode(Value::Dict(d)) + rest;
    lemma_decode_pairs(d, Seq::empty(), rest);
    assert(b.skip(1) =~= encode_entries(d) + (seq!['e' as u8] + rest));
    assert(Seq::<(Seq<u8>, Value)>::empty() + d =~= d);
    assert(dict_of(Seq::empty()) =~= seq![]);
}

/// A dictionary into which entries are put holds under each key the last value for it, and
/// nothing under other keys.
pub proof fn law_dict_of(d: Seq<(Seq<u8>, Value)>, key: Seq<u8>)
    ensures
        sorted(dict_of(d)),
        match dict_get(dict_of(d), key) {
            Some(v) => exists|i: int|
                0 <= i < d.len() && #[trigger] d[i] == (key, v) && forall|j: int|
                    i < j < d.len() ==> (#[trigger] d[j]).0 != key,
            None => forall|i: int| 0 <= i < d.len() ==> (#[trigger] d[i]).0 != key,
        },
    decreases d.len(),
{
    if d.len() > 0 {
        let front = d.drop_last();
        let (k, v) = d.last();
        law_dict_of(front, key);
        law_dict_insert_sorted(dict_of(front), k, v);
        law_dict_get_insert(dict_of(front), k, v, key);
        if k == key {
            assert(d[d.len() - 1] == (key, v));
        } else {
            match dict_get(dict_of(d), key) {
                Some(w) => {
                    let i = choose|i: int|
                        0 <= i < front.len() && #[trigger] front[i] == (key, w) && forall|j: int|
                            i < j < front.len() ==> (#[trigger] front[j]).0 != key;
                    assert(d[i] == (key, w));
                    assert forall|j: int| i < j < d.len() implies (#[trigger] d[j]).0 != key by {
                        if j < front.len() {
                            assert(front[j] == d[j]);
                        }
                    }
                },
                None => {
                    assert forall|i: int| 0 <= i < d.len() implies (#[trigger] d[i]).0 != key by {
                        if i < front.len() {
                            assert(front[i] == d[i]);
                        }
                    }
                },
            }
        }
    }
}

/// What stands between `i` and `e` is read as the number that it is a numeral of, and not at
/// all where it is none.
pub proof fn law_decode_int(s: Seq<u8>, rest: Seq<u8>)
    requires
        forall|i: int| 0 <= i < s.len() ==> #[trigger] s[i] == 45 || 48 <= s[i] <= 57,
    ensures
        decode(seq![105u8] + s + seq![101u8] + rest) == (match numeral_value(s) {
            Some(i) => Some((Value::Int(i), rest)),
            None => None,
        }),
{
    let b = seq![105u8] + s + seq![101u8] + rest;
    let tail = seq![101u8] + rest;
    assert forall|i: int| 0 <= i < s.len() implies #[trigger] s[i] == '-' as u8 || is_digit(s[i]) by {}
    lemma_number_span(s, tail);
    assert(b.skip(1) =~= s + tail);
    assert((s + tail).take(s.len() as int) =~= s);
    assert((s + tail).skip(s.len() as int) =~= tail);
    assert(tail.skip(1) =~= rest);
}

/// A byte string stands behind its length and a colon, with zeros in front of the length or
/// not.
pub proof fn law_decode_str(digits: Seq<u8>, data: Seq<u8>, rest: Seq<u8>)
    requires
        digits.len() > 0,
        forall|i: int| 0 <= i < digits.len() ==> 48 <= #[trigger] digits[i] <= 57,
        digits_value(digits) == data.len(),
        data.len() <= i64::MAX,
    ensures
        decode(digits + seq![58u8] + data + rest) == Some((Value::Str(data), rest)),
{
    let b = digits + seq![58u8] + data + rest;
    let tail = seq![58u8] + data + rest;
    assert(b =~= digits + tail);
    assert forall|i: int| 0 <= i < digits.len() implies #[trigger] digits[i] == '-' as u8
        || is_digit(digits[i]) by {}
    lemma_number_span(digits, tail);
    law_numeral_value(digits);
    assert(b.take(digits.len() as int) =~= digits);
    assert(b.skip(digits.len() as int) =~= tail);
    assert(tail.subrange(1, 1 + data.len() as int) =~= data);
    assert(tail.skip(1 + data.len() as int) =~= rest);
    assert(is_digit(b[0])) by {
        assert(b[0] == digits[0]);
    }
}

} // verus!
