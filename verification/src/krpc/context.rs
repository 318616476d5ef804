//! Matching replies to queries.

use super::messages::{
    lemma_inserted, no_entries, ErrorReply, KrpcQuery, KrpcReply, Message,
};
use crate::bencode::fields::{field, str_field};
use crate::bencode::value::{
    decode, dict_insert, encode, law_decode_encode, law_dict_insert_sorted, well_formed, Value,
};
use crate::bencode::{Dict, Object};
use crate::bytes::{
    big_endian, big_endian_bytes, bytes_equal, lemma_big_endian_bytes_len,
    lemma_big_endian_round_trip, push_u16, read_u16, text,
};
use std::collections::HashSet;
use vstd::prelude::*;

verus! {

/// Why a query has no reply.
#[derive(Debug, PartialEq, Eq)]
pub enum KrpcError {
    /// The remote gave an invalid reply.
    InvalidReply,
    /// The remote gave an error.
    Error(ErrorReply),
    /// The remote did not reply in time.
    TimedOut,
    /// It is not known why.
    Unknown,
    /// The network failed; the text says how.
    NetworkError(String),
}

/// What an incoming packet is.
#[derive(Debug, PartialEq, Eq)]
pub enum KrpcProcess {
    /// A query, to be handled by the caller.
    Query(Object),
    /// The reply to the pending query with that transaction id.
    Reply(u16, Object),
    /// Nothing of use.
    InvalidMessage,
}

/// What an incoming packet is, by the values of its objects.
pub enum Incoming {
    Query(Value),
    Reply(u16, Value),
    Invalid,
}

impl View for KrpcProcess {
    type V = Incoming;

    open spec fn view(&self) -> Incoming {
        match *self {
            KrpcProcess::Query(object) => Incoming::Query(object@),
            KrpcProcess::Reply(tid, object) => Incoming::Reply(tid, object@),
            KrpcProcess::InvalidMessage => Incoming::Invalid,
        }
    }
}

/// A query message, such as `{"t":"aa", "y":"q", "q":"ping", "a":{"id":".."}}`.
pub open spec fn query_value(tid: u16, name: Seq<u8>, arguments: Value) -> Value {
    let d = dict_insert(no_entries(), text("t"), Value::Str(big_endian_bytes(tid as nat, 2)));
    let d = dict_insert(d, text("y"), Value::Str(text("q")));
    let d = dict_insert(d, text("q"), Value::Str(name));
    Value::Dict(dict_insert(d, text("a"), arguments))
}

/// A reply message, such as `{"t":"aa", "y":"r", "r": {"id":".."}}`.
pub open spec fn reply_value(tid: Seq<u8>, reply: Value) -> Value {
    let d = dict_insert(no_entries(), text("t"), Value::Str(tid));
    let d = dict_insert(d, text("y"), Value::Str(text("r")));
    Value::Dict(dict_insert(d, text("r"), reply))
}

/// The transaction id of a message, where it is two bytes long.
pub open spec fn tid_of(v: Value) -> Option<u16> {
    match str_field(v, text("t")) {
        Some(s) => if s.len() == 2 {
            Some(big_endian(s) as u16)
        } else {
            None
        },
        None => None,
    }
}

/// Whether a message is a query.
pub open spec fn is_query(v: Value) -> bool {
    str_field(v, text("y")) == Some(text("q"))
}

/// What a reply message carries.
pub open spec fn reply_of(v: Value) -> Option<Value> {
    if str_field(v, text("y")) == Some(text("r")) {
        field(v, text("r"))
    } else {
        None
    }
}

/// What an incoming packet is, where the given transactions are pending.
pub open spec fn incoming(pending: Set<u16>, bytes: Seq<u8>) -> Incoming {
    match decode(bytes) {
        Some((v, _)) => if is_query(v) {
            Incoming::Query(v)
        } else {
            match tid_of(v) {
                Some(tid) => if pending.contains(tid) {
                    Incoming::Reply(tid, v)
                } else {
                    Incoming::Invalid
                },
                None => Incoming::Invalid,
            }
        },
        None => Incoming::Invalid,
    }
}

/// The transactions that are still pending after an incoming packet.
pub open spec fn pending_after(pending: Set<u16>, bytes: Seq<u8>) -> Set<u16> {
    match incoming(pending, bytes) {
        Incoming::Reply(tid, _) => pending.remove(tid),
        _ => pending,
    }
}

/// The transaction id of a message.
fn extract_tid(obj: &Object) -> (r: Option<u16>)
    ensures
        r == tid_of(obj@),
{
    match obj.str_field("t") {
        Some(tid) => {
            if tid.len() != 2 {
                return None;
            }
            assert(tid@.subrange(0, 2) =~= tid@);
            Some(read_u16(tid.as_slice(), 0))
        },
        None => None,
    }
}

/// The reply that a message carries.
pub fn extract_reply<T: KrpcReply>(obj: &Object) -> (r: Option<T>)
    ensures
        match r {
            Some(reply) => reply_of(obj@) matches Some(v) && T::of_value(v) == Some(reply@),
            None => reply_of(obj@) matches Some(v) ==> T::of_value(v) is None,
        },
{
    match obj.str_field("y") {
        Some(y) => {
            if !bytes_equal(y.as_slice(), "r".as_bytes()) {
                return None;
            }
        },
        None => {
            return None;
        },
    }
    match obj.field("r") {
        Some(reply) => T::from_bencode(reply),
        None => None,
    }
}

/// The message itself, where it is a query.
fn extract_query(obj: &Object) -> (r: Option<Object>)
    ensures
        match r {
            Some(query) => is_query(obj@) && query@ == obj@,
            None => !is_query(obj@),
        },
{
    match obj.str_field("y") {
        Some(y) => {
            if bytes_equal(y.as_slice(), "q".as_bytes()) {
                Some(obj.clone())
            } else {
                None
            }
        },
        None => None,
    }
}

/// The result of a query to which `obj` came back.
pub fn query_result<T: KrpcQuery>(obj: &Object) -> (r: Result<T::Reply, KrpcError>)
    ensures
        match r {
            Ok(reply) => reply_of(obj@) matches Some(v) && T::Reply::of_value(v) == Some(reply@),
            Err(e) => e == KrpcError::InvalidReply && (reply_of(obj@) matches Some(v)
                ==> T::Reply::of_value(v) is None),
        },
{
    match extract_reply::<T::Reply>(obj) {
        Some(reply) => Ok(reply),
        None => Err(KrpcError::InvalidReply),
    }
}

/// The packet that answers the transaction `tid`.
pub fn make_reply<T: KrpcReply>(tid: &[u8], message: &T) -> (r: Vec<u8>)
    ensures
        r@ == encode(reply_value(tid@, T::to_value(message@))),
{
    broadcast use Object::lemma_view;

    let mut dict = Dict::new();
    dict.set_str("t", tid);
    dict.set_str("y", "r".as_bytes());
    dict.set("r", message.to_bencode());
    Object::Dict(dict).encode()
}

/// The queries that are waiting for a reply.
pub struct KrpcContext {
    pending: HashSet<u16>,
    tid: u16,
    ipv4: bool,
}

impl KrpcContext {
    /// The transactions of the queries that are waiting for a reply.
    pub closed spec fn pending(&self) -> Set<u16> {
        self.pending@
    }

    /// The transaction id of the next query.
    pub closed spec fn next_tid(&self) -> u16 {
        self.tid
    }

    /// Whether queries go to IPv4 addresses.
    pub closed spec fn spec_ipv4(&self) -> bool {
        self.ipv4
    }

    /// A context with no pending query, on a socket of the family that `ipv4` says.
    pub fn new(ipv4: bool) -> (r: KrpcContext)
        ensures
            r.pending() == Set::<u16>::empty(),
            r.next_tid() == 0,
            r.spec_ipv4() == ipv4,
    {
        KrpcContext { pending: HashSet::new(), tid: 0, ipv4 }
    }

    /// Whether queries go to IPv4 addresses.
    pub fn is_ipv4(&self) -> (r: bool)
        ensures
            r == self.spec_ipv4(),
    {
        self.ipv4
    }

    /// Starts a query: gives its transaction id, which is then pending, and its packet.
    pub fn send_krpc<T: KrpcQuery>(&mut self, message: &T) -> (r: (u16, Vec<u8>))
        ensures
            r.0 == old(self).next_tid(),
            r.1@ == encode(query_value(r.0, T::method(), T::to_value(message@))),
            final(self).pending() == old(self).pending().insert(r.0),
            final(self).next_tid() == (if r.0 == u16::MAX {
                0
            } else {
                r.0 + 1
            }),
            final(self).spec_ipv4() == old(self).spec_ipv4(),
    {
        broadcast use vstd::std_specs::hash::group_hash_axioms;

        let tid: u16 = self.tid;
        self.tid = if tid == u16::MAX {
            0
        } else {
            tid + 1
        };
        let mut id: Vec<u8> = Vec::new();
        push_u16(&mut id, tid);
        assert(id@ =~= big_endian_bytes(tid as nat, 2));
        let mut dict = Dict::new();
        dict.set_str("t", id.as_slice());
        dict.set_str("y", "q".as_bytes());
        dict.set_str("q", T::method_name());
        dict.set("a", message.to_bencode());
        self.pending.insert(tid);
        let query = Object::Dict(dict);
        proof {
            query.lemma_view();
        }
        (tid, query.encode())
    }

    /// Forgets a query.
    pub fn cancel(&mut self, tid: u16)
        ensures
            final(self).pending() == old(self).pending().remove(tid),
            final(self).next_tid() == old(self).next_tid(),
            final(self).spec_ipv4() == old(self).spec_ipv4(),
    {
        broadcast use vstd::std_specs::hash::group_hash_axioms;

        self.pending.remove(&tid);
        assert(self.pending() =~= old(self).pending().remove(tid));
    }

    /// Says what an incoming packet is. A reply is no longer pending then.
    pub fn process_udp(&mut self, bytes: &[u8]) -> (r: KrpcProcess)
        ensures
            r@ == incoming(old(self).pending(), bytes@),
            final(self).pending() == pending_after(old(self).pending(), bytes@),
            final(self).next_tid() == old(self).next_tid(),
            final(self).spec_ipv4() == old(self).spec_ipv4(),
    {
        broadcast use vstd::std_specs::hash::group_hash_axioms;

        let obj = match Object::decode(bytes) {
            Some((obj, _)) => obj,
            None => {
                return KrpcProcess::InvalidMessage;
            },
        };
        match extract_query(&obj) {
            Some(query) => {
                return KrpcProcess::Query(query);
            },
            None => {},
        }
        let tid: u16 = match extract_tid(&obj) {
            Some(tid) => tid,
            None => {
                return KrpcProcess::InvalidMessage;
            },
        };
        if !self.pending.contains(&tid) {
            return KrpcProcess::InvalidMessage;
        }
        self.pending.remove(&tid);
        assert(self.pending() =~= old(self).pending().remove(tid));
        KrpcProcess::Reply(tid, obj)
    }
}

/// The keys of messages differ.
proof fn lemma_message_keys()
    ensures
        text("t") == seq!['t' as u8],
        text("y") == seq!['y' as u8],
        text("q") == seq!['q' as u8],
        text("r") == seq!['r' as u8],
        text("a") == seq!['a' as u8],
        text("t") != text("y") && text("t") != text("q") && text("t") != text("r"),
        text("t") != text("a") && text("y") != text("q") && text("y") != text("r"),
        text("y") != text("a") && text("q") != text("a") && text("q") != text("r"),
{
    reveal_strlit("t");
    reveal_strlit("y");
    reveal_strlit("q");
    reveal_strlit("r");
    reveal_strlit("a");
    assert("t".is_ascii());
    assert("y".is_ascii());
    assert("q".is_ascii());
    assert("r".is_ascii());
    assert("a".is_ascii());
    assert(text("t") =~= seq!['t' as u8]);
    assert(text("y") =~= seq!['y' as u8]);
    assert(text("q") =~= seq!['q' as u8]);
    assert(text("r") =~= seq!['r' as u8]);
    assert(text("a") =~= seq!['a' as u8]);
    assert(text("t")[0] != text("y")[0] && text("t")[0] != text("q")[0]);
    assert(text("t")[0] != text("r")[0] && text("t")[0] != text("a")[0]);
    assert(text("y")[0] != text("q")[0] && text("y")[0] != text("r")[0]);
    assert(text("y")[0] != text("a")[0] && text("q")[0] != text("a")[0]);
    assert(text("q")[0] != text("r")[0]);
}

/// A query message carries its transaction id, its method and its arguments.
pub proof fn law_query_fields(tid: u16, name: Seq<u8>, arguments: Value)
    ensures
        is_query(query_value(tid, name, arguments)),
        tid_of(query_value(tid, name, arguments)) == Some(tid),
        str_field(query_value(tid, name, arguments), text("t")) == Some(
            big_endian_bytes(tid as nat, 2),
        ),
        str_field(query_value(tid, name, arguments), text("q")) == Some(name),
        field(query_value(tid, name, arguments), text("a")) == Some(arguments),
{
    lemma_message_keys();
    let t = big_endian_bytes(tid as nat, 2);
    lemma_big_endian_bytes_len(tid as nat, 2);
    assert(vstd::arithmetic::power::pow(256, 2) == 0x1_0000) by {
        reveal_with_fuel(vstd::arithmetic::power::pow, 3);
    }
    lemma_big_endian_round_trip(tid as nat, 2);
    let d1 = dict_insert(no_entries(), text("t"), Value::Str(t));
    let d2 = dict_insert(d1, text("y"), Value::Str(text("q")));
    let d3 = dict_insert(d2, text("q"), Value::Str(name));
    lemma_inserted(no_entries(), text("t"), Value::Str(t));
    lemma_inserted(d1, text("y"), Value::Str(text("q")));
    lemma_inserted(d2, text("q"), Value::Str(name));
    lemma_inserted(d3, text("a"), arguments);
}

/// A reply message carries its transaction id and its reply.
pub proof fn law_reply_fields(tid: Seq<u8>, reply: Value)
    ensures
        !is_query(reply_value(tid, reply)),
        str_field(reply_value(tid, reply), text("t")) == Some(tid),
        reply_of(reply_value(tid, reply)) == Some(reply),
{
    lemma_message_keys();
    let d1 = dict_insert(no_entries(), text("t"), Value::Str(tid));
    let d2 = dict_insert(d1, text("y"), Value::Str(text("r")));
    lemma_inserted(no_entries(), text("t"), Value::Str(tid));
    lemma_inserted(d1, text("y"), Value::Str(text("r")));
    lemma_inserted(d2, text("r"), reply);
}

/// A query and a reply are well formed where what they carry is.
proof fn lemma_messages_well_formed(tid: Seq<u8>, name: Seq<u8>, t: u16, inner: Value)
    requires
        well_formed(inner),
        tid.len() <= i64::MAX,
        name.len() <= i64::MAX,
    ensures
        well_formed(query_value(t, name, inner)),
        well_formed(reply_value(tid, inner)),
{
    lemma_message_keys();
    lemma_big_endian_bytes_len(t as nat, 2);
    let id = Value::Str(big_endian_bytes(t as nat, 2));
    let d1 = dict_insert(no_entries(), text("t"), id);
    let d2 = dict_insert(d1, text("y"), Value::Str(text("q")));
    let d3 = dict_insert(d2, text("q"), Value::Str(name));
    lemma_wf_insert(no_entries(), text("t"), id);
    lemma_wf_insert(d1, text("y"), Value::Str(text("q")));
    lemma_wf_insert(d2, text("q"), Value::Str(name));
    lemma_wf_insert(d3, text("a"), inner);
    let e1 = dict_insert(no_entries(), text("t"), Value::Str(tid));
    let e2 = dict_insert(e1, text("y"), Value::Str(text("r")));
    lemma_wf_insert(no_entries(), text("t"), Value::Str(tid));
    lemma_wf_insert(e1, text("y"), Value::Str(text("r")));
    lemma_wf_insert(e2, text("r"), inner);
}

proof fn lemma_wf_insert(d: Seq<(Seq<u8>, Value)>, key: Seq<u8>, v: Value)
    requires
        well_formed(Value::Dict(d)),
        well_formed(v),
        key.len() <= i64::MAX,
    ensures
        well_formed(Value::Dict(dict_insert(d, key, v))),
{
    law_dict_insert_sorted(d, key, v);
    crate::bencode::value::lemma_insert_well_formed(d, key, v);
}

/// A packet that starts a query is taken as that query by whoever receives it.
pub proof fn law_query_received(pending: Set<u16>, tid: u16, name: Seq<u8>, arguments: Value)
    requires
        well_formed(arguments),
        name.len() <= i64::MAX,
    ensures
        incoming(pending, encode(query_value(tid, name, arguments))) == Incoming::Query(
            query_value(tid, name, arguments),
        ),
{
    let v = query_value(tid, name, arguments);
    lemma_messages_well_formed(seq![], name, tid, arguments);
    law_decode_encode(v, seq![]);
    assert(encode(v) + seq![] =~= encode(v));
    law_query_fields(tid, name, arguments);
}

/// The reply to a pending query is delivered to it, and to it once: the same packet again
/// is of no use.
pub proof fn law_reply_delivered_once(pending: Set<u16>, tid: u16, reply: Value)
    requires
        pending.contains(tid),
        well_formed(reply),
    ensures
        ({
            let v = reply_value(big_endian_bytes(tid as nat, 2), reply);
            let after = pending_after(pending, encode(v));
            &&& incoming(pending, encode(v)) == Incoming::Reply(tid, v)
            &&& reply_of(v) == Some(reply)
            &&& after == pending.remove(tid)
            &&& incoming(after, encode(v)) == Incoming::Invalid
        }),
{
    let t = big_endian_bytes(tid as nat, 2);
    lemma_big_endian_bytes_len(tid as nat, 2);
    assert(vstd::arithmetic::power::pow(256, 2) == 0x1_0000) by {
        reveal_with_fuel(vstd::arithmetic::power::pow, 3);
    }
    lemma_big_endian_round_trip(tid as nat, 2);
    let v = reply_value(t, reply);
    lemma_messages_well_formed(t, seq![], tid, reply);
    law_decode_encode(v, seq![]);
    assert(encode(v) + seq![] =~= encode(v));
    law_reply_fields(t, reply);
}

/// A message says under `y` what it is: `q` for a query and `r` for a reply, which stands
/// under `r`.
pub proof fn law_message_kinds(tid: u16, name: Seq<u8>, id: Seq<u8>, inner: Value, v: Value)
    ensures
        str_field(query_value(tid, name, inner), text("y")) == Some(text("q")),
        str_field(reply_value(id, inner), text("y")) == Some(text("r")),
        field(reply_value(id, inner), text("r")) == Some(inner),
        is_query(v) <==> str_field(v, text("y")) == Some(text("q")),
        reply_of(v) is Some ==> str_field(v, text("y")) == Some(text("r")) && field(v, text("r"))
            == reply_of(v),
        str_field(v, text("y")) == Some(text("r")) ==> reply_of(v) == field(v, text("r")),
{
    law_query_fields(tid, name, inner);
    law_reply_fields(id, inner);
}

/// A packet is a query where it says so, and a reply where a query with its transaction id,
/// of two bytes, is pending; it then is that query's, which is pending no more. Nothing else
/// is of use, and what is of no use changes nothing.
pub proof fn law_incoming(pending: Set<u16>, bytes: Seq<u8>, v: Value, rest: Seq<u8>)
    requires
        decode(bytes) == Some((v, rest)),
    ensures
        str_field(v, text("y")) == Some(text("q")) <==> incoming(pending, bytes)
            == Incoming::Query(v),
        incoming(pending, bytes) matches Incoming::Reply(tid, w) ==> {
            &&& w == v
            &&& pending.contains(tid)
            &&& str_field(v, text("t")) matches Some(s) && s.len() == 2 && s[0] * 256 + s[1] == tid
            &&& pending_after(pending, bytes) == pending.remove(tid)
        },
        (str_field(v, text("t")) matches Some(s) && s.len() == 2 && pending.contains(
            (s[0] * 256 + s[1]) as u16,
        )) ==> !(incoming(pending, bytes) is Invalid),
        !(incoming(pending, bytes) is Reply) ==> pending_after(pending, bytes) == pending,
{
    if let Some(s) = str_field(v, text("t")) {
        if s.len() == 2 {
            crate::bytes::lemma_big_endian_2(s);
        }
    }
}

/// What is no value is of no use.
pub proof fn law_incoming_invalid(pending: Set<u16>, bytes: Seq<u8>)
    requires
        decode(bytes) is None,
    ensures
        incoming(pending, bytes) is Invalid,
        pending_after(pending, bytes) == pending,
{
}

} // verus!
