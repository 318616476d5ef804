//! Bencoded objects.

use super::value::{
    decode, decode_entries, decode_items, decode_number, decode_str, dict_get, dict_insert,
    dict_of, encode, encode_entries, encode_items, encode_str, law_dict_insert_sorted,
    lemma_dict_insert_at, number_span, parse_number, sorted, Value,
};
use crate::bytes::{
    append_slice, bytes_equal, copy_slice, lemma_lex_total, lex_compare, lex_less, sub_slice,
    Order,
};
use crate::decimal::{parse_numeral, push_decimal, push_decimal_int};
use vstd::prelude::*;

verus! {

/// A bencoded object.
#[derive(PartialEq, Eq, Debug)]
pub enum Object {
    Int(i64),
    String(Vec<u8>),
    List(Vec<Object>),
    Dict(Dict),
}

/// A dictionary: entries in the order of their keys, which differ.
#[derive(PartialEq, Eq, Debug)]
pub struct Dict {
    entries: Vec<(Vec<u8>, Object)>,
}

/// The value that an object stands for.
pub closed spec fn object_value(object: Object) -> Value
    decreases object,
{
    match object {
        Object::Int(i) => Value::Int(i),
        Object::String(s) => Value::Str(s@),
        Object::List(l) => Value::List(
            Seq::new(
                l@.len(),
                |i: int|
                    if 0 <= i < l@.len() {
                        object_value(l@[i])
                    } else {
                        arbitrary()
                    },
            ),
        ),
        Object::Dict(d) => Value::Dict(
            Seq::new(
                d.entries@.len(),
                |i: int|
                    if 0 <= i < d.entries@.len() {
                        (d.entries@[i].0@, object_value(d.entries@[i].1))
                    } else {
                        arbitrary()
                    },
            ),
        ),
    }
}

impl View for Object {
    type V = Value;

    open spec fn view(&self) -> Value {
        object_value(*self)
    }
}

impl View for Dict {
    type V = Seq<(Seq<u8>, Value)>;

    closed spec fn view(&self) -> Seq<(Seq<u8>, Value)> {
        entry_views(self.entries@)
    }
}

spec fn entry_views(entries: Seq<(Vec<u8>, Object)>) -> Seq<(Seq<u8>, Value)> {
    Seq::new(entries.len(), |i: int| (entries[i].0@, entries[i].1@))
}

/// The values of a sequence of objects.
pub open spec fn views(objects: Seq<Object>) -> Seq<Value> {
    Seq::new(objects.len(), |i: int| objects[i]@)
}

/// What a decoded object and the input that is left stand for.
pub open spec fn decoded(r: Option<(Object, &[u8])>) -> Option<(Value, Seq<u8>)> {
    match r {
        Some((object, left)) => Some((object@, left@)),
        None => None,
    }
}

impl Object {
    /// The value of an object, by its variant.
    pub broadcast proof fn lemma_view(self)
        ensures
            (#[trigger] self@) == (match self {
                Object::Int(i) => Value::Int(i),
                Object::String(s) => Value::Str(s@),
                Object::List(l) => Value::List(views(l@)),
                Object::Dict(d) => Value::Dict(d@),
            }),
    {
        match self {
            Object::List(l) => {
                assert(self@->List_0 =~= views(l@));
            },
            Object::Dict(d) => {
                assert(self@->Dict_0 =~= d@);
            },
            _ => {},
        }
    }
}

/// The items of a list are smaller than the list.
proof fn lemma_smaller_item(object: Object, i: int)
    requires
        object is List,
        0 <= i < object->List_0@.len(),
    ensures
        decreases_to!(object => object->List_0@[i]),
{
    assert(decreases_to!(object => object->List_0));
    assert(decreases_to!(object->List_0 => object->List_0@));
    assert(decreases_to!(object->List_0@ => object->List_0@[i]));
}

/// The values of a dictionary are smaller than the dictionary.
proof fn lemma_smaller_entry(object: Object, i: int)
    requires
        object is Dict,
        0 <= i < object->Dict_0.entries@.len(),
    ensures
        decreases_to!(object => object->Dict_0.entries@[i].1),
{
    assert(decreases_to!(object => object->Dict_0));
    assert(decreases_to!(object->Dict_0 => object->Dict_0.entries));
    assert(decreases_to!(object->Dict_0.entries => object->Dict_0.entries@));
    assert(decreases_to!(object->Dict_0.entries@ => object->Dict_0.entries@[i]));
    assert(decreases_to!(object->Dict_0.entries@[i] => object->Dict_0.entries@[i].1));
}

/// A number at the start of `bytes`, and what follows it.
fn parse_int(bytes: &[u8]) -> (r: Option<(i64, &[u8])>)
    ensures
        parse_number(bytes@) == (match r {
            Some((i, left)) => Some((i, left@)),
            None => None,
        }),
{
    let mut end: usize = 0;
    assert(bytes@.skip(0) =~= bytes@);
    while end < bytes.len() && (bytes[end] == '-' as u8 || (48 <= bytes[end] && bytes[end] <= 57))
        invariant
            end <= bytes@.len(),
            number_span(bytes@) == end + number_span(bytes@.skip(end as int)),
        decreases bytes@.len() - end,
    {
        assert(bytes@.skip(end as int).skip(1) =~= bytes@.skip(end + 1));
        end += 1;
    }
    assert(number_span(bytes@) == end);
    match parse_numeral(sub_slice(bytes, 0, end)) {
        Some(num) => Some((num, sub_slice(bytes, end, bytes.len()))),
        None => None,
    }
}

impl Dict {
    /// Whether the keys strictly increase.
    pub open spec fn wf(&self) -> bool {
        sorted(self@)
    }

    /// The empty dictionary.
    pub fn new() -> (r: Dict)
        ensures
            r@ == Seq::<(Seq<u8>, Value)>::empty(),
            r.wf(),
    {
        let r = Dict { entries: Vec::new() };
        assert(r@ =~= Seq::<(Seq<u8>, Value)>::empty());
        r
    }

    /// How many entries there are.
    pub fn len(&self) -> (r: usize)
        ensures
            r == self@.len(),
    {
        self.entries.len()
    }

    /// The key of the entry at position `i`.
    pub fn key_at(&self, i: usize) -> (r: &Vec<u8>)
        requires
            i < self@.len(),
        ensures
            r@ == self@[i as int].0,
    {
        &self.entries[i].0
    }

    /// The object of the entry at position `i`.
    pub fn value_at(&self, i: usize) -> (r: &Object)
        requires
            i < self@.len(),
        ensures
            r@ == self@[i as int].1,
    {
        &self.entries[i].1
    }

    /// The object under `key`.
    pub fn get(&self, key: &[u8]) -> (r: Option<&Object>)
        ensures
            match r {
                Some(object) => dict_get(self@, key@) == Some(object@),
                None => dict_get(self@, key@) is None,
            },
    {
        let mut i: usize = 0;
        assert(self@.skip(0) =~= self@);
        while i < self.entries.len()
            invariant
                i <= self@.len(),
                self@.len() == self.entries@.len(),
                dict_get(self@, key@) == dict_get(self@.skip(i as int), key@),
            decreases self@.len() - i,
        {
            if bytes_equal(self.entries[i].0.as_slice(), key) {
                return Some(&self.entries[i].1);
            }
            assert(self@.skip(i as int).skip(1) =~= self@.skip(i + 1));
            i += 1;
        }
        None
    }

    /// Puts an object under `key`, in place of the one that is there.
    pub fn insert(&mut self, key: Vec<u8>, value: Object)
        ensures
            final(self)@ == dict_insert(old(self)@, key@, value@),
            old(self).wf() ==> final(self).wf(),
    {
        let mut p: usize = 0;
        let ghost k = key@;
        let ghost v = value@;
        let mut found: bool = false;
        while p < self.entries.len()
            invariant_except_break
                !found,
            invariant
                p <= self.entries@.len(),
                *self == *old(self),
                k == key@,
                forall|i: int| 0 <= i < p ==> lex_less(#[trigger] self@[i].0, k),
            ensures
                p < self.entries@.len() ==> self@[p as int].0 == k || lex_less(
                    k,
                    self@[p as int].0,
                ),
                found == (p < self.entries@.len() && self@[p as int].0 == k),
            decreases self.entries@.len() - p,
        {
            match lex_compare(self.entries[p].0.as_slice(), key.as_slice()) {
                Order::Less => {},
                Order::Equal => {
                    found = true;
                    break ;
                },
                Order::Greater => {
                    proof {
                        lemma_lex_total(self@[p as int].0, k);
                    }
                    break ;
                },
            }
            p += 1;
        }
        proof {
            lemma_dict_insert_at(self@, k, v, p as int);
        }
        if found {
            self.entries[p] = (key, value);
            assert(self@ =~= old(self)@.update(p as int, (k, v)));
        } else {
            self.entries.insert(p, (key, value));
            assert(self@ =~= old(self)@.insert(p as int, (k, v)));
        }
        proof {
            if old(self).wf() {
                law_dict_insert_sorted(old(self)@, k, v);
            }
        }
    }

    /// The dictionary made by inserting `pairs` one after the other.
    pub fn from_pairs(pairs: Vec<(Vec<u8>, Object)>) -> (r: Dict)
        ensures
            r@ == dict_of(
                Seq::new(pairs@.len(), |i: int| (pairs@[i].0@, pairs@[i].1@)),
            ),
            r.wf(),
    {
        let ghost all = entry_views(pairs@);
        let mut r = Dict::new();
        let mut pairs = pairs;
        assert(all.take(0) =~= seq![]);
        while pairs.len() > 0
            invariant
                pairs@.len() <= all.len(),
                entry_views(pairs@) == all.skip(all.len() - pairs@.len()),
                r@ == dict_of(all.take(all.len() - pairs@.len())),
                r.wf(),
            decreases pairs@.len(),
        {
            let ghost n = all.len() - pairs@.len();
            let ghost before = entry_views(pairs@);
            assert(all.take(n + 1).drop_last() =~= all.take(n));
            assert(before[0] == all[n]);
            let (key, value) = pairs.remove(0);
            assert(entry_views(pairs@) =~= before.skip(1));
            assert(before.skip(1) =~= all.skip(n + 1));
            r.insert(key, value);
        }
        assert(all.take(all.len() as int) =~= all);
        r
    }
}

impl Object {
    /// The number that this object is.
    pub fn as_int(&self) -> (r: Option<&i64>)
        ensures
            match r {
                Some(i) => self@ == Value::Int(*i),
                None => !(self@ is Int),
            },
    {
        proof {
            self.lemma_view();
        }
        match self {
            Object::Int(i) => Some(i),
            _ => None,
        }
    }

    /// The byte string that this object is.
    pub fn as_string(&self) -> (r: Option<&Vec<u8>>)
        ensures
            match r {
                Some(s) => self@ == Value::Str(s@),
                None => !(self@ is Str),
            },
    {
        proof {
            self.lemma_view();
        }
        match self {
            Object::String(s) => Some(s),
            _ => None,
        }
    }

    /// The list that this object is.
    pub fn as_list(&self) -> (r: Option<&Vec<Object>>)
        ensures
            match r {
                Some(list) => self@ == Value::List(views(list@)),
                None => !(self@ is List),
            },
    {
        proof {
            self.lemma_view();
        }
        match self {
            Object::List(list) => Some(list),
            _ => None,
        }
    }

    /// The dictionary that this object is.
    pub fn as_dict(&self) -> (r: Option<&Dict>)
        ensures
            match r {
                Some(dict) => self@ == Value::Dict(dict@),
                None => !(self@ is Dict),
            },
    {
        proof {
            self.lemma_view();
        }
        match self {
            Object::Dict(dict) => Some(dict),
            _ => None,
        }
    }

    /// The object that a dictionary holds under `key`; none if this is no dictionary.
    pub fn get(&self, key: &[u8]) -> (r: Option<&Object>)
        ensures
            match r {
                Some(object) => self@ is Dict && dict_get(self@->Dict_0, key@) == Some(object@),
                None => self@ is Dict ==> dict_get(self@->Dict_0, key@) is None,
            },
    {
        proof {
            self.lemma_view();
        }
        match self {
            Object::Dict(dict) => dict.get(key),
            _ => None,
        }
    }

    /// Parses the object at the start of `bytes`.
    pub fn decode(bytes: &[u8]) -> (r: Option<(Object, &[u8])>)
        ensures
            decoded(r) == decode(bytes@),
        decreases bytes@.len(), 1int,
    {
        if bytes.len() == 0 {
            return None;
        }
        let first: u8 = bytes[0];
        if 48 <= first && first <= 57 {
            Object::decode_string(bytes)
        } else if first == 'i' as u8 {
            Object::decode_int(bytes)
        } else if first == 'l' as u8 {
            Object::decode_list(bytes)
        } else if first == 'd' as u8 {
            Object::decode_dict(bytes)
        } else {
            None
        }
    }

    /// Parses a number, such as `i11e`.
    pub fn decode_int(bytes: &[u8]) -> (r: Option<(Object, &[u8])>)
        ensures
            decoded(r) == (match decode_number(bytes@) {
                Some((i, rest)) => Some((Value::Int(i), rest)),
                None => None,
            }),
    {
        broadcast use Object::lemma_view;

        if bytes.len() == 0 || bytes[0] != 'i' as u8 {
            return None;
        }
        match parse_int(sub_slice(bytes, 1, bytes.len())) {
            Some((num, left)) => {
                if left.len() == 0 || left[0] != 'e' as u8 {
                    return None;
                }
                Some((Object::Int(num), sub_slice(left, 1, left.len())))
            },
            None => None,
        }
    }

    /// Parses a byte string, such as `4:aaaa`.
    pub fn decode_string(bytes: &[u8]) -> (r: Option<(Object, &[u8])>)
        ensures
            decoded(r) == (match decode_str(bytes@) {
                Some((s, rest)) => Some((Value::Str(s), rest)),
                None => None,
            }),
            r matches Some((object, _)) ==> object is String,
    {
        broadcast use Object::lemma_view;

        match parse_int(bytes) {
            Some((strlen, left)) => {
                if left.len() == 0 || left[0] != ':' as u8 || strlen < 0 {
                    return None;
                }
                if (left.len() as u64) <= strlen as u64 {
                    return None;
                }
                let end: usize = strlen as usize + 1;
                let string = copy_slice(sub_slice(left, 1, end));
                Some((Object::String(string), sub_slice(left, end, left.len())))
            },
            None => None,
        }
    }

    /// Parses a list, such as `l4:spame`.
    pub fn decode_list(bytes: &[u8]) -> (r: Option<(Object, &[u8])>)
        ensures
            bytes@.len() > 0 && bytes@[0] == 'l' as u8 ==> decoded(r) == decode(bytes@),
            bytes@.len() > 0 && bytes@[0] == 'l' as u8 || r is None,
        decreases bytes@.len(), 0int,
    {
        broadcast use Object::lemma_view;

        if bytes.len() == 0 || bytes[0] != 'l' as u8 {
            return None;
        }
        let mut left: &[u8] = sub_slice(bytes, 1, bytes.len());
        let mut list: Vec<Object> = Vec::new();
        assert(views(list@) =~= seq![]);
        assert(left@ =~= bytes@.skip(1));
        while left.len() > 0 && left[0] != 'e' as u8
            invariant
                left@.len() < bytes@.len(),
                bytes@.len() > 0 && bytes@[0] == 'l' as u8,
                decode_items(left@, views(list@)) == decode_items(bytes@.skip(1), seq![]),
            decreases left@.len(),
        {
            match Object::decode(left) {
                Some((object, rest)) => {
                    proof {
                        super::value::law_decode_rest(left@);
                    }
                    let ghost before = views(list@);
                    let ghost v = object@;
                    list.push(object);
                    assert(views(list@) =~= before.push(v));
                    left = rest;
                },
                None => {
                    return None;
                },
            }
        }
        if left.len() == 0 {
            return None;
        }
        Some((Object::List(list), sub_slice(left, 1, left.len())))
    }

    /// Parses a dictionary, such as `d1:s2:sse`.
    pub fn decode_dict(bytes: &[u8]) -> (r: Option<(Object, &[u8])>)
        ensures
            bytes@.len() > 0 && bytes@[0] == 'd' as u8 ==> decoded(r) == decode(bytes@),
            bytes@.len() > 0 && bytes@[0] == 'd' as u8 || r is None,
        decreases bytes@.len(), 0int,
    {
        broadcast use Object::lemma_view;

        if bytes.len() == 0 || bytes[0] != 'd' as u8 {
            return None;
        }
        let mut left: &[u8] = sub_slice(bytes, 1, bytes.len());
        let mut dict = Dict::new();
        assert(left@ =~= bytes@.skip(1));
        while left.len() > 0 && left[0] != 'e' as u8
            invariant
                left@.len() < bytes@.len(),
                bytes@.len() > 0 && bytes@[0] == 'd' as u8,
                decode_entries(left@, dict@) == decode_entries(bytes@.skip(1), seq![]),
            decreases left@.len(),
        {
            proof {
                super::value::lemma_decode_str_rest(left@);
            }
            match Object::decode_string(left) {
                Some((Object::String(key), rest)) => {
                    match Object::decode(rest) {
                        Some((object, rest)) => {
                            proof {
                                super::value::law_decode_rest(decode_str(left@)->Some_0.1);
                            }
                            dict.insert(key, object);
                            left = rest;
                        },
                        None => {
                            return None;
                        },
                    }
                },
                _ => {
                    return None;
                },
            }
        }
        if left.len() == 0 {
            return None;
        }
        Some((Object::Dict(dict), sub_slice(left, 1, left.len())))
    }

    /// The object whose encoding is the whole of `bytes`.
    pub fn parse(bytes: &[u8]) -> (r: Option<Object>)
        ensures
            match r {
                Some(object) => decode(bytes@) == Some((object@, Seq::<u8>::empty())),
                None => match decode(bytes@) {
                    Some((_, rest)) => rest.len() > 0,
                    None => true,
                },
            },
    {
        match Object::decode(bytes) {
            Some((object, left)) => {
                if left.len() == 0 {
                    assert(left@ =~= Seq::<u8>::empty());
                    Some(object)
                } else {
                    None
                }
            },
            None => None,
        }
    }

    /// The encoding of this object.
    pub fn encode(&self) -> (r: Vec<u8>)
        ensures
            r@ == encode(self@),
    {
        let mut buf: Vec<u8> = Vec::new();
        self.encode_to(&mut buf);
        assert(buf@ =~= encode(self@));
        buf
    }

    /// Appends the encoding of this object.
    pub fn encode_to(&self, out: &mut Vec<u8>)
        ensures
            final(out)@ == old(out)@ + encode(self@),
        decreases self,
    {
        broadcast use Object::lemma_view;

        match self {
            Object::Int(i) => {
                out.push('i' as u8);
                push_decimal_int(out, *i);
                out.push('e' as u8);
                assert(out@ =~= old(out)@ + encode(self@));
            },
            Object::String(s) => {
                push_str(out, s.as_slice());
            },
            Object::List(list) => {
                out.push('l' as u8);
                let ghost all = views(list@);
                let ghost start = out@;
                let mut i: usize = 0;
                assert(all.skip(0) =~= all);
                while i < list.len()
                    invariant
                        i <= list@.len(),
                        all == views(list@),
                        *self == Object::List(*list),
                        out@ + encode_items(all.skip(i as int)) == start + encode_items(all),
                    decreases list@.len() - i,
                {
                    let ghost before = out@;
                    assert(list@[i as int]@ == all[i as int]);
                    proof {
                        lemma_smaller_item(*self, i as int);
                    }
                    list[i].encode_to(out);
                    assert(all.skip(i as int).skip(1) =~= all.skip(i + 1));
                    assert(out@ + encode_items(all.skip(i + 1)) =~= before + encode_items(
                        all.skip(i as int),
                    ));
                    i += 1;
                }
                assert(encode_items(all.skip(i as int)) =~= seq![]);
                assert(out@ =~= start + encode_items(all));
                out.push('e' as u8);
                assert(out@ =~= old(out)@ + encode(self@));
            },
            Object::Dict(dict) => {
                out.push('d' as u8);
                let ghost all = dict@;
                let ghost start = out@;
                let mut i: usize = 0;
                assert(all.skip(0) =~= all);
                while i < dict.entries.len()
                    invariant
                        i <= dict.entries@.len(),
                        all == dict@,
                        all.len() == dict.entries@.len(),
                        *self == Object::Dict(*dict),
                        out@ + encode_entries(all.skip(i as int)) == start + encode_entries(all),
                    decreases dict.entries@.len() - i,
                {
                    let ghost before = out@;
                    let entry: &(Vec<u8>, Object) = &dict.entries[i];
                    assert((entry.0@, entry.1@) == all[i as int]);
                    push_str(out, entry.0.as_slice());
                    proof {
                        lemma_smaller_entry(*self, i as int);
                    }
                    entry.1.encode_to(out);
                    assert(all.skip(i as int).skip(1) =~= all.skip(i + 1));
                    assert(out@ + encode_entries(all.skip(i + 1)) =~= before + encode_entries(
                        all.skip(i as int),
                    ));
                    i += 1;
                }
                assert(encode_entries(all.skip(i as int)) =~= seq![]);
                assert(out@ =~= start + encode_entries(all));
                out.push('e' as u8);
                assert(out@ =~= old(out)@ + encode(self@));
            },
        }
    }
}

/// Appends the encoding of a byte string, such as `4:spam`.
fn push_str(out: &mut Vec<u8>, s: &[u8])
    ensures
        final(out)@ == old(out)@ + encode_str(s@),
{
    push_decimal(out, s.len() as u64);
    out.push(':' as u8);
    append_slice(out, s);
    assert(out@ =~= old(out)@ + encode_str(s@));
}

impl Clone for Object {
    fn clone(&self) -> (r: Object)
        ensures
            r@ == self@,
        decreases self,
    {
        broadcast use Object::lemma_view;

        match self {
            Object::Int(i) => Object::Int(*i),
            Object::String(s) => Object::String(copy_slice(s.as_slice())),
            Object::List(list) => {
                let mut copy: Vec<Object> = Vec::new();
                let mut i: usize = 0;
                while i < list.len()
                    invariant
                        i <= list@.len(),
                        i == copy@.len(),
                        *self == Object::List(*list),
                        forall|j: int| 0 <= j < i ==> (#[trigger] copy@[j])@ == list@[j]@,
                    decreases list@.len() - i,
                {
                    proof {
                        lemma_smaller_item(*self, i as int);
                    }
                    let item = (&list[i]).clone();
                    copy.push(item);
                    i += 1;
                }
                assert(views(copy@) =~= views(list@));
                Object::List(copy)
            },
            Object::Dict(dict) => {
                let mut copy: Vec<(Vec<u8>, Object)> = Vec::new();
                let mut i: usize = 0;
                while i < dict.entries.len()
                    invariant
                        i <= dict.entries@.len(),
                        i == copy@.len(),
                        *self == Object::Dict(*dict),
                        forall|j: int|
                            0 <= j < i ==> (#[trigger] copy@[j]).0@ == dict.entries@[j].0@
                                && copy@[j].1@ == dict.entries@[j].1@,
                    decreases dict.entries@.len() - i,
                {
                    let entry: &(Vec<u8>, Object) = &dict.entries[i];
                    let key = copy_slice(entry.0.as_slice());
                    proof {
                        lemma_smaller_entry(*self, i as int);
                    }
                    let item = (&entry.1).clone();
                    copy.push((key, item));
                    i += 1;
                }
                let r = Dict { entries: copy };
                assert(r@ =~= dict@);
                Object::Dict(r)
            },
        }
    }
}

impl From<i64> for Object {
    fn from(item: i64) -> (r: Object)
        ensures
            r@ == Value::Int(item),
    {
        broadcast use Object::lemma_view;

        Object::Int(item)
    }
}

impl vstd::std_specs::convert::FromSpecImpl<i64> for Object {
    open spec fn obeys_from_spec() -> bool {
        true
    }

    open spec fn from_spec(item: i64) -> Object {
        Object::Int(item)
    }
}

impl From<Vec<u8>> for Object {
    fn from(item: Vec<u8>) -> (r: Object)
        ensures
            r@ == Value::Str(item@),
    {
        broadcast use Object::lemma_view;

        Object::String(item)
    }
}

impl vstd::std_specs::convert::FromSpecImpl<Vec<u8>> for Object {
    open spec fn obeys_from_spec() -> bool {
        true
    }

    open spec fn from_spec(item: Vec<u8>) -> Object {
        Object::String(item)
    }
}

impl From<Vec<Object>> for Object {
    fn from(item: Vec<Object>) -> (r: Object)
        ensures
            r@ == Value::List(views(item@)),
    {
        broadcast use Object::lemma_view;

        Object::List(item)
    }
}

impl vstd::std_specs::convert::FromSpecImpl<Vec<Object>> for Object {
    open spec fn obeys_from_spec() -> bool {
        true
    }

    open spec fn from_spec(item: Vec<Object>) -> Object {
        Object::List(item)
    }
}

impl From<Dict> for Object {
    fn from(item: Dict) -> (r: Object)
        ensures
            r@ == Value::Dict(item@),
    {
        broadcast use Object::lemma_view;

        Object::Dict(item)
    }
}

impl vstd::std_specs::convert::FromSpecImpl<Dict> for Object {
    open spec fn obeys_from_spec() -> bool {
        true
    }

    open spec fn from_spec(item: Dict) -> Object {
        Object::Dict(item)
    }
}

impl From<&[u8]> for Object {
    fn from(item: &[u8]) -> (r: Object)
        ensures
            r@ == Value::Str(item@),
    {
        broadcast use Object::lemma_view;

        Object::String(copy_slice(item))
    }
}

impl vstd::std_specs::convert::FromSpecImpl<&[u8]> for Object {
    open spec fn obeys_from_spec() -> bool {
        false
    }

    open spec fn from_spec(item: &[u8]) -> Object {
        arbitrary()
    }
}

} // verus!
