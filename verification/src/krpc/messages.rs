//! Queries and replies.

use super::nodes::{
    encode_nodes_to, law_nodes_round_trip, node_views, nodes_bytes, parse_nodes, parsed_nodes,
    plain, uniform,
};
use crate::bencode::fields::{field, id_field, int_field, str_field};
use crate::bencode::object::views;
use crate::bencode::value::{dict_get, dict_insert, law_dict_get_insert, Value};
use crate::bencode::{Dict, Object};
use crate::bytes::{append_slice, copy_slice, sub_slice, text};
use crate::kad::addr::SocketAddr;
use crate::kad::compact::{
    compact_ip, encode_ip_to, law_compact_round_trip, parse_ip, parsed_ip,
};
use crate::kad::nodeid::{InfoHash, NodeId};
use crate::strings::string_from_utf8;
use vstd::prelude::*;
use vstd::utf8::{decode_utf8, encode_utf8, valid_utf8};

verus! {

/// The empty dictionary.
pub open spec fn no_entries() -> Seq<(Seq<u8>, Value)> {
    Seq::empty()
}

/// What goes into a message as its own dictionary or list.
pub trait Message: Sized + View {
    /// The bencoded value of a message.
    spec fn to_value(message: Self::V) -> Value;

    /// The message that a bencoded value stands for.
    spec fn of_value(v: Value) -> Option<Self::V>;

    /// The bencoded form of this message.
    fn to_bencode(&self) -> (r: Object)
        ensures
            r@ == Self::to_value(self@),
    ;

    /// The message that an object stands for.
    fn from_bencode(obj: &Object) -> (r: Option<Self>)
        ensures
            match r {
                Some(message) => Self::of_value(obj@) == Some(message@),
                None => Self::of_value(obj@) is None,
            },
    ;
}

/// A message that answers a query.
pub trait KrpcReply: Message {

}

/// A message that asks for a reply.
pub trait KrpcQuery: Message {
    type Reply: KrpcReply;

    /// The name of the query's method.
    spec fn method() -> Seq<u8>;

    /// The name of the query's method, as it stands in messages, such as `find_node`.
    fn method_name() -> (r: &'static [u8])
        ensures
            r@ == Self::method(),
    ;
}

/// Asks for the nodes closest to a target.
#[derive(Debug, PartialEq, Eq)]
pub struct FindNodeQuery {
    pub id: NodeId,
    pub target: NodeId,
}

/// Gives the nodes closest to a target.
#[derive(Debug, PartialEq, Eq)]
pub struct FindNodeReply {
    pub id: NodeId,
    pub nodes: Vec<(NodeId, SocketAddr)>,
}

/// Asks whether a node is there.
#[derive(Debug, PartialEq, Eq)]
pub struct PingQuery {
    pub id: NodeId,
}

/// Says that a node is there.
#[derive(Debug, PartialEq, Eq)]
pub struct PingReply {
    pub id: NodeId,
}

/// Asks for the peers of a torrent.
#[derive(Debug, PartialEq, Eq)]
pub struct GetPeersQuery {
    pub id: NodeId,
    pub info_hash: InfoHash,
}

/// Gives the peers of a torrent, or nodes that are closer to it, and a token to announce
/// oneself with.
#[derive(Debug, PartialEq, Eq)]
pub struct GetPeersReply {
    pub id: NodeId,
    pub token: Vec<u8>,
    pub nodes: Vec<(NodeId, SocketAddr)>,
    pub values: Vec<SocketAddr>,
}

/// Announces that the sender is a peer of a torrent.
#[derive(Debug, PartialEq, Eq)]
pub struct AnnouncePeerQuery {
    pub id: NodeId,
    pub info_hash: InfoHash,
    pub port: u16,
    pub token: Vec<u8>,
    pub implied_port: bool,
}

/// Accepts an announcement.
#[derive(Debug, PartialEq, Eq)]
pub struct AnnouncePeerReply {
    pub id: NodeId,
}

/// Asks for some of the info hashes that a node knows.
#[derive(Debug, PartialEq, Eq)]
pub struct SampleInfoHashesQuery {
    pub id: NodeId,
    pub target: InfoHash,
}

/// Gives some of the info hashes that a node knows.
#[derive(Debug, PartialEq, Eq)]
pub struct SampleInfoHashesReply {
    pub id: NodeId,
    /// The seconds after which other samples can be had.
    pub interval: u32,
    pub nodes: Vec<(NodeId, SocketAddr)>,
    /// How many info hashes the node knows.
    pub num: u32,
    pub info_hashes: Vec<InfoHash>,
}

/// Says why a query failed.
#[derive(Debug, PartialEq, Eq)]
pub struct ErrorReply {
    pub code: i64,
    pub msg: String,
}

/// The lengths and first bytes of the keys, by which they differ.
pub proof fn lemma_keys()
    ensures
        text("id").len() == 2,
        text("num").len() == 3,
        text("port").len() == 4,
        text("nodes").len() == 5 && text("nodes")[0] == 'n' as u8,
        text("token").len() == 5 && text("token")[0] == 't' as u8,
        text("nodes6").len() == 6 && text("nodes6")[0] == 'n' as u8,
        text("target").len() == 6 && text("target")[0] == 't' as u8,
        text("values").len() == 6 && text("values")[0] == 'v' as u8,
        text("samples").len() == 7,
        text("interval").len() == 8,
        text("info_hash").len() == 9,
        text("implied_port").len() == 12,
{
    reveal_strlit("id");
    reveal_strlit("num");
    reveal_strlit("port");
    reveal_strlit("nodes");
    reveal_strlit("token");
    reveal_strlit("nodes6");
    reveal_strlit("target");
    reveal_strlit("values");
    reveal_strlit("samples");
    reveal_strlit("interval");
    reveal_strlit("info_hash");
    reveal_strlit("implied_port");
    assert("id".is_ascii());
    assert("num".is_ascii());
    assert("port".is_ascii());
    assert("nodes".is_ascii());
    assert("token".is_ascii());
    assert("nodes6".is_ascii());
    assert("target".is_ascii());
    assert("values".is_ascii());
    assert("samples".is_ascii());
    assert("interval".is_ascii());
    assert("info_hash".is_ascii());
    assert("implied_port".is_ascii());
}

/// What a dictionary holds after an insert, for every key.
pub proof fn lemma_inserted(d: Seq<(Seq<u8>, Value)>, key: Seq<u8>, value: Value)
    ensures
        forall|k: Seq<u8>| #[trigger]
            dict_get(dict_insert(d, key, value), k) == (if k == key {
                Some(value)
            } else {
                dict_get(d, k)
            }),
{
    assert forall|k: Seq<u8>| #[trigger] dict_get(dict_insert(d, key, value), k) == (if k == key {
        Some(value)
    } else {
        dict_get(d, k)
    }) by {
        law_dict_get_insert(d, key, value, k);
    }
}

/// The dictionary with one identifier under `id`.
pub open spec fn id_dict(id: Seq<u8>) -> Seq<(Seq<u8>, Value)> {
    dict_insert(no_entries(), text("id"), Value::Str(id))
}

/// The dictionary with an identifier under `id` and another under `key`.
pub open spec fn two_ids(id: Seq<u8>, key: Seq<u8>, other: Seq<u8>) -> Seq<(Seq<u8>, Value)> {
    dict_insert(id_dict(id), key, Value::Str(other))
}

/// The key under which a list of nodes stands: by the family of the first address.
pub open spec fn nodes_key(nodes: Seq<(Seq<u8>, SocketAddr)>) -> Seq<u8> {
    if nodes.len() == 0 || nodes[0].1 is V4 {
        text("nodes")
    } else {
        text("nodes6")
    }
}

/// The dictionary with a list of nodes put in.
pub open spec fn with_nodes(
    d: Seq<(Seq<u8>, Value)>,
    nodes: Seq<(Seq<u8>, SocketAddr)>,
) -> Seq<(Seq<u8>, Value)> {
    dict_insert(d, nodes_key(nodes), Value::Str(nodes_bytes(nodes)))
}

/// The value of the list of nodes: what is under `nodes`, or else under `nodes6`.
pub open spec fn nodes_field(v: Value) -> Option<Value> {
    match field(v, text("nodes")) {
        Some(nodes) => Some(nodes),
        None => field(v, text("nodes6")),
    }
}

/// The nodes that a value stands for.
pub open spec fn nodes_of(v: Value) -> Option<Seq<(Seq<u8>, SocketAddr)>> {
    match v {
        Value::Str(s) => parsed_nodes(s),
        _ => None,
    }
}

fn make_id_dict(id: &NodeId) -> (r: Dict)
    ensures
        r@ == id_dict(id@),
        r.wf(),
{
    let mut dict = Dict::new();
    dict.set_str("id", id.as_slice());
    dict
}

fn make_two_ids(id: &NodeId, key: &str, other: &NodeId) -> (r: Object)
    ensures
        r@ == Value::Dict(two_ids(id@, text(key), other@)),
{
    broadcast use Object::lemma_view;

    let mut dict = make_id_dict(id);
    dict.set_str(key, other.as_slice());
    Object::Dict(dict)
}

fn put_nodes(dict: &mut Dict, nodes: &Vec<(NodeId, SocketAddr)>)
    ensures
        final(dict)@ == with_nodes(old(dict)@, node_views(nodes@)),
        old(dict).wf() ==> final(dict).wf(),
{
    let v4: bool = if nodes.len() > 0 {
        nodes[0].1.is_ipv4()
    } else {
        true
    };
    let mut bytes: Vec<u8> = Vec::new();
    encode_nodes_to(&mut bytes, nodes);
    assert(bytes@ =~= nodes_bytes(node_views(nodes@)));
    if v4 {
        dict.set_str("nodes", bytes.as_slice());
    } else {
        dict.set_str("nodes6", bytes.as_slice());
    }
}

/// The object that holds the list of nodes.
fn find_nodes(obj: &Object) -> (r: Option<&Object>)
    ensures
        match r {
            Some(nodes) => nodes_field(obj@) == Some(nodes@),
            None => nodes_field(obj@) is None,
        },
{
    match obj.field("nodes") {
        Some(nodes) => Some(nodes),
        None => obj.field("nodes6"),
    }
}

/// The nodes that an object stands for.
fn read_nodes(obj: &Object) -> (r: Option<Vec<(NodeId, SocketAddr)>>)
    ensures
        match r {
            Some(nodes) => nodes_of(obj@) == Some(node_views(nodes@)),
            None => nodes_of(obj@) is None,
        },
{
    match obj.as_string() {
        Some(s) => parse_nodes(s.as_slice()),
        None => None,
    }
}

impl View for FindNodeQuery {
    /// The identifiers of the sender and of the target.
    type V = (Seq<u8>, Seq<u8>);

    open spec fn view(&self) -> (Seq<u8>, Seq<u8>) {
        (self.id@, self.target@)
    }
}

impl Message for FindNodeQuery {
    open spec fn to_value(message: (Seq<u8>, Seq<u8>)) -> Value {
        Value::Dict(two_ids(message.0, text("target"), message.1))
    }

    open spec fn of_value(v: Value) -> Option<(Seq<u8>, Seq<u8>)> {
        match (id_field(v, text("id")), id_field(v, text("target"))) {
            (Some(id), Some(target)) => Some((id, target)),
            _ => None,
        }
    }

    fn to_bencode(&self) -> (r: Object) {
        make_two_ids(&self.id, "target", &self.target)
    }

    fn from_bencode(obj: &Object) -> (r: Option<FindNodeQuery>) {
        match (obj.id_field("id"), obj.id_field("target")) {
            (Some(id), Some(target)) => Some(FindNodeQuery { id, target }),
            _ => None,
        }
    }
}

impl KrpcQuery for FindNodeQuery {
    type Reply = FindNodeReply;

    open spec fn method() -> Seq<u8> {
        text("find_node")
    }

    fn method_name() -> (r: &'static [u8]) {
        "find_node".as_bytes()
    }
}

impl View for FindNodeReply {
    /// The identifier of the sender, and the nodes.
    type V = (Seq<u8>, Seq<(Seq<u8>, SocketAddr)>);

    open spec fn view(&self) -> (Seq<u8>, Seq<(Seq<u8>, SocketAddr)>) {
        (self.id@, node_views(self.nodes@))
    }
}

impl Message for FindNodeReply {
    open spec fn to_value(message: (Seq<u8>, Seq<(Seq<u8>, SocketAddr)>)) -> Value {
        Value::Dict(with_nodes(id_dict(message.0), message.1))
    }

    open spec fn of_value(v: Value) -> Option<(Seq<u8>, Seq<(Seq<u8>, SocketAddr)>)> {
        match (id_field(v, text("id")), nodes_field(v)) {
            (Some(id), Some(nodes)) => match nodes_of(nodes) {
                Some(nodes) => Some((id, nodes)),
                None => None,
            },
            _ => None,
        }
    }

    fn to_bencode(&self) -> (r: Object) {
        broadcast use Object::lemma_view;

        let mut dict = make_id_dict(&self.id);
        put_nodes(&mut dict, &self.nodes);
        Object::Dict(dict)
    }

    fn from_bencode(obj: &Object) -> (r: Option<FindNodeReply>) {
        match (obj.id_field("id"), find_nodes(obj)) {
            (Some(id), Some(nodes)) => match read_nodes(nodes) {
                Some(nodes) => Some(FindNodeReply { id, nodes }),
                None => None,
            },
            _ => None,
        }
    }
}

impl KrpcReply for FindNodeReply {

}

impl View for PingQuery {
    /// The identifier of the sender.
    type V = Seq<u8>;

    open spec fn view(&self) -> Seq<u8> {
        self.id@
    }
}

impl Message for PingQuery {
    open spec fn to_value(message: Seq<u8>) -> Value {
        Value::Dict(id_dict(message))
    }

    open spec fn of_value(v: Value) -> Option<Seq<u8>> {
        id_field(v, text("id"))
    }

    fn to_bencode(&self) -> (r: Object) {
        broadcast use Object::lemma_view;

        Object::Dict(make_id_dict(&self.id))
    }

    fn from_bencode(obj: &Object) -> (r: Option<PingQuery>) {
        match obj.id_field("id") {
            Some(id) => Some(PingQuery { id }),
            None => None,
        }
    }
}

impl KrpcQuery for PingQuery {
    type Reply = PingReply;

    open spec fn method() -> Seq<u8> {
        text("ping")
    }

    fn method_name() -> (r: &'static [u8]) {
        "ping".as_bytes()
    }
}

impl View for PingReply {
    /// The identifier of the sender.
    type V = Seq<u8>;

    open spec fn view(&self) -> Seq<u8> {
        self.id@
    }
}

impl Message for PingReply {
    open spec fn to_value(message: Seq<u8>) -> Value {
        Value::Dict(id_dict(message))
    }

    open spec fn of_value(v: Value) -> Option<Seq<u8>> {
        id_field(v, text("id"))
    }

    fn to_bencode(&self) -> (r: Object) {
        broadcast use Object::lemma_view;

        Object::Dict(make_id_dict(&self.id))
    }

    fn from_bencode(obj: &Object) -> (r: Option<PingReply>) {
        match obj.id_field("id") {
            Some(id) => Some(PingReply { id }),
            None => None,
        }
    }
}

impl KrpcReply for PingReply {

}

impl View for GetPeersQuery {
    /// The identifier of the sender, and the info hash.
    type V = (Seq<u8>, Seq<u8>);

    open spec fn view(&self) -> (Seq<u8>, Seq<u8>) {
        (self.id@, self.info_hash@)
    }
}

impl Message for GetPeersQuery {
    open spec fn to_value(message: (Seq<u8>, Seq<u8>)) -> Value {
        Value::Dict(two_ids(message.0, text("info_hash"), message.1))
    }

    open spec fn of_value(v: Value) -> Option<(Seq<u8>, Seq<u8>)> {
        match (id_field(v, text("id")), id_field(v, text("info_hash"))) {
            (Some(id), Some(info_hash)) => Some((id, info_hash)),
            _ => None,
        }
    }

    fn to_bencode(&self) -> (r: Object) {
        make_two_ids(&self.id, "info_hash", &self.info_hash)
    }

    fn from_bencode(obj: &Object) -> (r: Option<GetPeersQuery>) {
        match (obj.id_field("id"), obj.id_field("info_hash")) {
            (Some(id), Some(info_hash)) => Some(GetPeersQuery { id, info_hash }),
            _ => None,
        }
    }
}

impl KrpcQuery for GetPeersQuery {
    type Reply = GetPeersReply;

    open spec fn method() -> Seq<u8> {
        text("get_peers")
    }

    fn method_name() -> (r: &'static [u8]) {
        "get_peers".as_bytes()
    }
}

/// The parts of a reply with peers.
pub struct PeersReply {
    pub id: Seq<u8>,
    pub token: Seq<u8>,
    pub nodes: Seq<(Seq<u8>, SocketAddr)>,
    pub values: Seq<SocketAddr>,
}

/// The values of a list of addresses.
pub open spec fn addr_values(addrs: Seq<SocketAddr>) -> Seq<Value> {
    Seq::new(addrs.len(), |i: int| Value::Str(compact_ip(addrs[i])))
}

/// The address that a value stands for.
pub open spec fn addr_of(v: Value) -> Option<SocketAddr> {
    match v {
        Value::Str(s) => parsed_ip(s),
        _ => None,
    }
}

/// The addresses that a list stands for, where each of its items is one.
pub open spec fn addrs_of(v: Value) -> Option<Seq<SocketAddr>> {
    match v {
        Value::List(l) => if forall|i: int| 0 <= i < l.len() ==> addr_of(#[trigger] l[i]) is Some {
            Some(Seq::new(l.len(), |i: int| addr_of(l[i])->Some_0))
        } else {
            None
        },
        _ => None,
    }
}

impl View for GetPeersReply {
    type V = PeersReply;

    open spec fn view(&self) -> PeersReply {
        PeersReply {
            id: self.id@,
            token: self.token@,
            nodes: node_views(self.nodes@),
            values: self.values@,
        }
    }
}

/// The list of the compact forms of addresses.
fn encode_values(values: &Vec<SocketAddr>) -> (r: Vec<Object>)
    ensures
        views(r@) == addr_values(values@),
{
    broadcast use Object::lemma_view;

    let mut list: Vec<Object> = Vec::new();
    let mut i: usize = 0;
    while i < values.len()
        invariant
            i <= values@.len(),
            list@.len() == i,
            forall|j: int|
                0 <= j < i ==> (#[trigger] list@[j])@ == Value::Str(compact_ip(values@[j])),
        decreases values@.len() - i,
    {
        let mut buf: Vec<u8> = Vec::new();
        let ip: SocketAddr = values[i];
        encode_ip_to(&mut buf, &ip);
        assert(buf@ =~= compact_ip(values@[i as int]));
        let item = Object::String(buf);
        proof {
            item.lemma_view();
        }
        list.push(item);
        i += 1;
    }
    assert(views(list@) =~= addr_values(values@));
    list
}

/// The addresses that an object stands for.
fn read_values(obj: &Object) -> (r: Option<Vec<SocketAddr>>)
    ensures
        match r {
            Some(values) => addrs_of(obj@) == Some(values@),
            None => addrs_of(obj@) is None,
        },
{
    let list = match obj.as_list() {
        Some(list) => list,
        None => {
            return None;
        },
    };
    let ghost l = views(list@);
    let mut values: Vec<SocketAddr> = Vec::new();
    let mut i: usize = 0;
    while i < list.len()
        invariant
            i <= list@.len(),
            l == views(list@),
            obj@ == Value::List(l),
            values@.len() == i,
            forall|j: int| 0 <= j < i ==> addr_of(#[trigger] l[j]) == Some(values@[j]),
        decreases list@.len() - i,
    {
        assert(l[i as int] == list@[i as int]@);
        let ip = match list[i].as_string() {
            Some(s) => parse_ip(s.as_slice()),
            None => None,
        };
        match ip {
            Some(ip) => {
                values.push(ip);
            },
            None => {
                assert(addr_of(l[i as int]) is None);
                return None;
            },
        }
        i += 1;
    }
    assert(addrs_of(obj@) is Some);
    assert(addrs_of(obj@)->Some_0 =~= values@);
    Some(values)
}

impl Message for GetPeersReply {
    open spec fn to_value(message: PeersReply) -> Value {
        let d = with_nodes(
            dict_insert(id_dict(message.id), text("token"), Value::Str(message.token)),
            message.nodes,
        );
        if message.values.len() > 0 {
            Value::Dict(dict_insert(d, text("values"), Value::List(addr_values(message.values))))
        } else {
            Value::Dict(d)
        }
    }

    open spec fn of_value(v: Value) -> Option<PeersReply> {
        let nodes = match nodes_field(v) {
            Some(nodes) => nodes_of(nodes),
            None => Some(seq![]),
        };
        let values = match field(v, text("values")) {
            Some(values) => addrs_of(values),
            None => Some(seq![]),
        };
        match (id_field(v, text("id")), str_field(v, text("token")), nodes, values) {
            (Some(id), Some(token), Some(nodes), Some(values)) => Some(
                PeersReply { id, token, nodes, values },
            ),
            _ => None,
        }
    }

    fn to_bencode(&self) -> (r: Object) {
        broadcast use Object::lemma_view;

        let mut dict = make_id_dict(&self.id);
        dict.set_str("token", self.token.as_slice());
        put_nodes(&mut dict, &self.nodes);
        if self.values.len() > 0 {
            dict.set("values", Object::List(encode_values(&self.values)));
        }
        Object::Dict(dict)
    }

    fn from_bencode(obj: &Object) -> (r: Option<GetPeersReply>) {
        let nodes = match find_nodes(obj) {
            Some(nodes) => match read_nodes(nodes) {
                Some(nodes) => nodes,
                None => {
                    return None;
                },
            },
            None => Vec::new(),
        };
        let values = match obj.field("values") {
            Some(values) => match read_values(values) {
                Some(values) => values,
                None => {
                    return None;
                },
            },
            None => Vec::new(),
        };
        match (obj.id_field("id"), obj.str_field("token")) {
            (Some(id), Some(token)) => {
                let r = GetPeersReply { id, token: copy_slice(token.as_slice()), nodes, values };
                proof {
                    if nodes_field(obj@) is None {
                        assert(node_views(r.nodes@) =~= seq![]);
                    }
                }
                Some(r)
            },
            _ => None,
        }
    }
}

impl KrpcReply for GetPeersReply {

}

/// The parts of an announcement.
pub struct Announcement {
    pub id: Seq<u8>,
    pub info_hash: Seq<u8>,
    pub port: u16,
    pub token: Seq<u8>,
    pub implied_port: bool,
}

impl View for AnnouncePeerQuery {
    type V = Announcement;

    open spec fn view(&self) -> Announcement {
        Announcement {
            id: self.id@,
            info_hash: self.info_hash@,
            port: self.port,
            token: self.token@,
            implied_port: self.implied_port,
        }
    }
}

impl Message for AnnouncePeerQuery {
    open spec fn to_value(message: Announcement) -> Value {
        let d = two_ids(message.id, text("info_hash"), message.info_hash);
        let d = dict_insert(d, text("port"), Value::Int(message.port as i64));
        let d = dict_insert(d, text("token"), Value::Str(message.token));
        let implied: i64 = if message.implied_port {
            1
        } else {
            0
        };
        Value::Dict(dict_insert(d, text("implied_port"), Value::Int(implied)))
    }

    open spec fn of_value(v: Value) -> Option<Announcement> {
        let implied_port = match field(v, text("implied_port")) {
            Some(Value::Int(i)) => Some(i == 1),
            Some(_) => None,
            None => Some(false),
        };
        match (
            id_field(v, text("id")),
            id_field(v, text("info_hash")),
            int_field(v, text("port")),
            str_field(v, text("token")),
            implied_port,
        ) {
            (Some(id), Some(info_hash), Some(port), Some(token), Some(implied_port)) => Some(
                Announcement { id, info_hash, port: port as u16, token, implied_port },
            ),
            _ => None,
        }
    }

    fn to_bencode(&self) -> (r: Object) {
        broadcast use Object::lemma_view;

        let mut dict = make_id_dict(&self.id);
        dict.set_str("info_hash", self.info_hash.as_slice());
        dict.set_int("port", self.port as i64);
        dict.set_str("token", self.token.as_slice());
        if self.implied_port {
            dict.set_int("implied_port", 1);
        } else {
            dict.set_int("implied_port", 0);
        }
        Object::Dict(dict)
    }

    fn from_bencode(obj: &Object) -> (r: Option<AnnouncePeerQuery>) {
        let implied_port: bool = match obj.field("implied_port") {
            Some(value) => match value.as_int() {
                Some(i) => *i == 1,
                None => {
                    return None;
                },
            },
            None => false,
        };
        match (
            obj.id_field("id"),
            obj.id_field("info_hash"),
            obj.int_field("port"),
            obj.str_field("token"),
        ) {
            (Some(id), Some(info_hash), Some(port), Some(token)) => Some(
                AnnouncePeerQuery {
                    id,
                    info_hash,
                    port: #[verifier::truncate]
                    (port as u16),
                    token: copy_slice(token.as_slice()),
                    implied_port,
                },
            ),
            _ => None,
        }
    }
}

impl KrpcQuery for AnnouncePeerQuery {
    type Reply = AnnouncePeerReply;

    open spec fn method() -> Seq<u8> {
        text("announce_peer")
    }

    fn method_name() -> (r: &'static [u8]) {
        "announce_peer".as_bytes()
    }
}

impl View for AnnouncePeerReply {
    /// The identifier of the sender.
    type V = Seq<u8>;

    open spec fn view(&self) -> Seq<u8> {
        self.id@
    }
}

impl Message for AnnouncePeerReply {
    open spec fn to_value(message: Seq<u8>) -> Value {
        Value::Dict(id_dict(message))
    }

    open spec fn of_value(v: Value) -> Option<Seq<u8>> {
        id_field(v, text("id"))
    }

    fn to_bencode(&self) -> (r: Object) {
        broadcast use Object::lemma_view;

        Object::Dict(make_id_dict(&self.id))
    }

    fn from_bencode(obj: &Object) -> (r: Option<AnnouncePeerReply>) {
        match obj.id_field("id") {
            Some(id) => Some(AnnouncePeerReply { id }),
            None => None,
        }
    }
}

impl KrpcReply for AnnouncePeerReply {

}

impl View for SampleInfoHashesQuery {
    /// The identifiers of the sender and of the target.
    type V = (Seq<u8>, Seq<u8>);

    open spec fn view(&self) -> (Seq<u8>, Seq<u8>) {
        (self.id@, self.target@)
    }
}

impl Message for SampleInfoHashesQuery {
    open spec fn to_value(message: (Seq<u8>, Seq<u8>)) -> Value {
        Value::Dict(two_ids(message.0, text("target"), message.1))
    }

    open spec fn of_value(v: Value) -> Option<(Seq<u8>, Seq<u8>)> {
        match (id_field(v, text("id")), id_field(v, text("target"))) {
            (Some(id), Some(target)) => Some((id, target)),
            _ => None,
        }
    }

    fn to_bencode(&self) -> (r: Object) {
        make_two_ids(&self.id, "target", &self.target)
    }

    fn from_bencode(obj: &Object) -> (r: Option<SampleInfoHashesQuery>) {
        match (obj.id_field("id"), obj.id_field("target")) {
            (Some(id), Some(target)) => Some(SampleInfoHashesQuery { id, target }),
            _ => None,
        }
    }
}

impl KrpcQuery for SampleInfoHashesQuery {
    type Reply = SampleInfoHashesReply;

    open spec fn method() -> Seq<u8> {
        text("sample_infohashes")
    }

    fn method_name() -> (r: &'static [u8]) {
        "sample_infohashes".as_bytes()
    }
}

/// The parts of a reply with samples.
pub struct Samples {
    pub id: Seq<u8>,
    pub interval: u32,
    pub nodes: Seq<(Seq<u8>, SocketAddr)>,
    pub num: u32,
    pub info_hashes: Seq<Seq<u8>>,
}

/// The bytes of identifiers.
pub open spec fn id_views(ids: Seq<NodeId>) -> Seq<Seq<u8>> {
    Seq::new(ids.len(), |i: int| ids[i]@)
}

/// The bytes of identifiers, one behind the other.
pub open spec fn joined(ids: Seq<Seq<u8>>) -> Seq<u8>
    decreases ids.len(),
{
    if ids.len() == 0 {
        seq![]
    } else {
        joined(ids.drop_last()) + ids.last()
    }
}

/// The bytes cut into identifiers; what is left over at the end is dropped.
pub open spec fn cut(s: Seq<u8>) -> Seq<Seq<u8>> {
    Seq::new(s.len() / 20, |i: int| s.subrange(20 * i, 20 * i + 20))
}

impl View for SampleInfoHashesReply {
    type V = Samples;

    open spec fn view(&self) -> Samples {
        Samples {
            id: self.id@,
            interval: self.interval,
            nodes: node_views(self.nodes@),
            num: self.num,
            info_hashes: id_views(self.info_hashes@),
        }
    }
}

fn join_ids(ids: &Vec<InfoHash>) -> (r: Vec<u8>)
    ensures
        r@ == joined(id_views(ids@)),
{
    let ghost all = id_views(ids@);
    let mut out: Vec<u8> = Vec::new();
    let mut i: usize = 0;
    assert(all.take(0) =~= seq![]);
    while i < ids.len()
        invariant
            i <= ids@.len(),
            all == id_views(ids@),
            out@ == joined(all.take(i as int)),
        decreases ids@.len() - i,
    {
        append_slice(&mut out, ids[i].as_slice());
        assert(all.take(i + 1).drop_last() =~= all.take(i as int));
        i += 1;
    }
    assert(all.take(i as int) =~= all);
    out
}

fn cut_ids(s: &[u8]) -> (r: Vec<InfoHash>)
    ensures
        id_views(r@) == cut(s@),
{
    let mut ids: Vec<InfoHash> = Vec::new();
    let count: usize = s.len() / 20;
    let mut i: usize = 0;
    while i < count
        invariant
            i <= count,
            20 * count <= s@.len(),
            s@.len() <= usize::MAX,
            ids@.len() == i,
            forall|j: int|
                0 <= j < i ==> (#[trigger] ids@[j])@ == s@.subrange(20 * j, 20 * j + 20),
        decreases count - i,
    {
        let start: usize = i * 20;
        match NodeId::from_slice(sub_slice(s, start, start + 20)) {
            Some(id) => {
                ids.push(id);
            },
            None => {
                assert(false);
            },
        }
        i += 1;
    }
    assert(id_views(ids@) =~= cut(s@));
    ids
}

/// A number as an unsigned one of 32 bits, where it fits.
pub open spec fn fit_u32(i: i64) -> Option<u32> {
    if 0 <= i <= u32::MAX {
        Some(i as u32)
    } else {
        None
    }
}

fn to_u32(i: i64) -> (r: Option<u32>)
    ensures
        r == fit_u32(i),
{
    if 0 <= i && i <= u32::MAX as i64 {
        Some(i as u32)
    } else {
        None
    }
}

impl Message for SampleInfoHashesReply {
    open spec fn to_value(message: Samples) -> Value {
        let d = dict_insert(
            id_dict(message.id),
            text("interval"),
            Value::Int(message.interval as i64),
        );
        let d = dict_insert(d, text("num"), Value::Int(message.num as i64));
        let d = dict_insert(d, text("samples"), Value::Str(joined(message.info_hashes)));
        Value::Dict(with_nodes(d, message.nodes))
    }

    open spec fn of_value(v: Value) -> Option<Samples> {
        match (
            id_field(v, text("id")),
            int_field(v, text("interval")),
            int_field(v, text("num")),
            str_field(v, text("samples")),
            nodes_field(v),
        ) {
            (Some(id), Some(interval), Some(num), Some(samples), Some(nodes)) => match (
                fit_u32(interval),
                fit_u32(num),
                nodes_of(nodes),
            ) {
                (Some(interval), Some(num), Some(nodes)) => Some(
                    Samples { id, interval, nodes, num, info_hashes: cut(samples) },
                ),
                _ => None,
            },
            _ => None,
        }
    }

    fn to_bencode(&self) -> (r: Object) {
        broadcast use Object::lemma_view;

        let samples = join_ids(&self.info_hashes);
        let mut dict = make_id_dict(&self.id);
        dict.set_int("interval", self.interval as i64);
        dict.set_int("num", self.num as i64);
        dict.set_str("samples", samples.as_slice());
        put_nodes(&mut dict, &self.nodes);
        Object::Dict(dict)
    }

    fn from_bencode(obj: &Object) -> (r: Option<SampleInfoHashesReply>) {
        match (
            obj.id_field("id"),
            obj.int_field("interval"),
            obj.int_field("num"),
            obj.str_field("samples"),
            find_nodes(obj),
        ) {
            (Some(id), Some(interval), Some(num), Some(samples), Some(nodes)) => {
                let info_hashes = cut_ids(samples.as_slice());
                match (to_u32(interval), to_u32(num), read_nodes(nodes)) {
                    (Some(interval), Some(num), Some(nodes)) => Some(
                        SampleInfoHashesReply { id, interval, nodes, num, info_hashes },
                    ),
                    _ => None,
                }
            },
            _ => None,
        }
    }
}

impl KrpcReply for SampleInfoHashesReply {

}

impl View for ErrorReply {
    /// The code and the message.
    type V = (i64, Seq<char>);

    open spec fn view(&self) -> (i64, Seq<char>) {
        (self.code, self.msg@)
    }
}

impl Message for ErrorReply {
    open spec fn to_value(message: (i64, Seq<char>)) -> Value {
        Value::List(seq![Value::Int(message.0), Value::Str(encode_utf8(message.1))])
    }

    open spec fn of_value(v: Value) -> Option<(i64, Seq<char>)> {
        match v {
            Value::List(l) => if l.len() == 2 {
                match (l[0], l[1]) {
                    (Value::Int(code), Value::Str(s)) => if valid_utf8(s) {
                        Some((code, decode_utf8(s)))
                    } else {
                        None
                    },
                    _ => None,
                }
            } else {
                None
            },
            _ => None,
        }
    }

    fn to_bencode(&self) -> (r: Object) {
        broadcast use Object::lemma_view;

        let mut list: Vec<Object> = Vec::new();
        list.push(Object::Int(self.code));
        list.push(Object::String(copy_slice(self.msg.as_str().as_bytes())));
        assert(views(list@) =~= seq![
            Value::Int(self.code),
            Value::Str(encode_utf8(self.msg@)),
        ]);
        Object::List(list)
    }

    fn from_bencode(obj: &Object) -> (r: Option<ErrorReply>) {
        let list = match obj.as_list() {
            Some(list) => list,
            None => {
                return None;
            },
        };
        if list.len() != 2 {
            return None;
        }
        assert(views(list@)[0] == list@[0]@);
        assert(views(list@)[1] == list@[1]@);
        match (list[0].as_int(), list[1].as_string()) {
            (Some(code), Some(msg)) => match string_from_utf8(copy_slice(msg.as_slice())) {
                Some(msg) => Some(ErrorReply { code: *code, msg }),
                None => None,
            },
            _ => None,
        }
    }
}

impl KrpcReply for ErrorReply {

}

/// What `two_ids` holds.
proof fn lemma_two_ids(id: Seq<u8>, key: Seq<u8>, other: Seq<u8>)
    requires
        key != text("id"),
    ensures
        dict_get(two_ids(id, key, other), text("id")) == Some(Value::Str(id)),
        dict_get(two_ids(id, key, other), key) == Some(Value::Str(other)),
{
    lemma_inserted(no_entries(), text("id"), Value::Str(id));
    lemma_inserted(id_dict(id), key, Value::Str(other));
}

/// Messages with one identifier survive their bencoded form.
pub proof fn law_ping_round_trip(id: Seq<u8>)
    requires
        id.len() == 20,
    ensures
        PingQuery::of_value(PingQuery::to_value(id)) == Some(id),
        PingReply::of_value(PingReply::to_value(id)) == Some(id),
        AnnouncePeerReply::of_value(AnnouncePeerReply::to_value(id)) == Some(id),
{
    lemma_inserted(no_entries(), text("id"), Value::Str(id));
}

/// Messages with two identifiers survive their bencoded form.
pub proof fn law_two_ids_round_trip(id: Seq<u8>, other: Seq<u8>)
    requires
        id.len() == 20,
        other.len() == 20,
    ensures
        FindNodeQuery::of_value(FindNodeQuery::to_value((id, other))) == Some((id, other)),
        GetPeersQuery::of_value(GetPeersQuery::to_value((id, other))) == Some((id, other)),
        SampleInfoHashesQuery::of_value(SampleInfoHashesQuery::to_value((id, other))) == Some(
            (id, other),
        ),
{
    lemma_keys();
    lemma_two_ids(id, text("target"), other);
    lemma_two_ids(id, text("info_hash"), other);
}

/// Whether a list of nodes can be told from its bytes: all addresses are of the family of
/// the first, and IPv6 nodes are not as many as would be read as IPv4 nodes.
pub open spec fn readable(nodes: Seq<(Seq<u8>, SocketAddr)>) -> bool {
    let v4 = nodes.len() == 0 || nodes[0].1 is V4;
    uniform(nodes, v4) && (v4 || nodes.len() % 13 != 0)
}

/// What a dictionary holds once nodes are put in.
proof fn lemma_with_nodes(d: Seq<(Seq<u8>, Value)>, nodes: Seq<(Seq<u8>, SocketAddr)>)
    requires
        readable(nodes),
        dict_get(d, text("nodes")) is None,
        dict_get(d, text("nodes6")) is None,
    ensures
        nodes_field(Value::Dict(with_nodes(d, nodes))) == Some(Value::Str(nodes_bytes(nodes))),
        nodes_of(Value::Str(nodes_bytes(nodes))) == Some(nodes),
        forall|k: Seq<u8>|
            k != text("nodes") && k != text("nodes6") ==> #[trigger] dict_get(
                with_nodes(d, nodes),
                k,
            ) == dict_get(d, k),
{
    lemma_keys();
    lemma_inserted(d, nodes_key(nodes), Value::Str(nodes_bytes(nodes)));
    law_nodes_round_trip(nodes, nodes.len() == 0 || nodes[0].1 is V4);
}

/// A reply with nodes survives its bencoded form.
pub proof fn law_find_node_reply_round_trip(message: (Seq<u8>, Seq<(Seq<u8>, SocketAddr)>))
    requires
        message.0.len() == 20,
        readable(message.1),
    ensures
        FindNodeReply::of_value(FindNodeReply::to_value(message)) == Some(message),
{
    lemma_keys();
    lemma_inserted(no_entries(), text("id"), Value::Str(message.0));
    lemma_with_nodes(id_dict(message.0), message.1);
}

/// A reply with peers survives its bencoded form.
pub proof fn law_get_peers_reply_round_trip(message: PeersReply)
    requires
        message.id.len() == 20,
        readable(message.nodes),
        forall|i: int| 0 <= i < message.values.len() ==> plain(#[trigger] message.values[i]),
    ensures
        GetPeersReply::of_value(GetPeersReply::to_value(message)) == Some(message),
{
    lemma_keys();
    let d0 = id_dict(message.id);
    let d1 = dict_insert(d0, text("token"), Value::Str(message.token));
    let d2 = with_nodes(d1, message.nodes);
    let list = Value::List(addr_values(message.values));
    lemma_inserted(no_entries(), text("id"), Value::Str(message.id));
    lemma_inserted(d0, text("token"), Value::Str(message.token));
    lemma_with_nodes(d1, message.nodes);
    lemma_inserted(d2, text("values"), list);
    let l = addr_values(message.values);
    assert forall|i: int| 0 <= i < l.len() implies addr_of(#[trigger] l[i]) == Some(
        message.values[i],
    ) by {
        law_compact_round_trip(message.values[i]);
        assert(plain(message.values[i]));
    }
    assert(addrs_of(list)->Some_0 =~= message.values);
    if message.values.len() == 0 {
        assert(message.values =~= seq![]);
    }
}

/// An announcement survives its bencoded form.
pub proof fn law_announce_peer_round_trip(message: Announcement)
    requires
        message.id.len() == 20,
        message.info_hash.len() == 20,
    ensures
        AnnouncePeerQuery::of_value(AnnouncePeerQuery::to_value(message)) == Some(message),
{
    lemma_keys();
    let implied: i64 = if message.implied_port {
        1
    } else {
        0
    };
    let d1 = two_ids(message.id, text("info_hash"), message.info_hash);
    let d2 = dict_insert(d1, text("port"), Value::Int(message.port as i64));
    let d3 = dict_insert(d2, text("token"), Value::Str(message.token));
    lemma_two_ids(message.id, text("info_hash"), message.info_hash);
    lemma_inserted(d1, text("port"), Value::Int(message.port as i64));
    lemma_inserted(d2, text("token"), Value::Str(message.token));
    lemma_inserted(d3, text("implied_port"), Value::Int(implied));
}

/// Identifiers of full length are cut out of their joined bytes.
proof fn lemma_cut_joined(ids: Seq<Seq<u8>>)
    requires
        forall|i: int| 0 <= i < ids.len() ==> (#[trigger] ids[i]).len() == 20,
    ensures
        joined(ids).len() == 20 * ids.len(),
        cut(joined(ids)) == ids,
    decreases ids.len(),
{
    let s = joined(ids);
    if ids.len() > 0 {
        let t = ids.drop_last();
        let n = t.len() as int;
        assert forall|i: int| 0 <= i < t.len() implies (#[trigger] t[i]).len() == 20 by {
            assert(t[i] == ids[i]);
        }
        lemma_cut_joined(t);
        let a = joined(t);
        assert(ids[n].len() == 20);
        assert forall|i: int| 0 <= i < ids.len() implies cut(s)[i] == ids[i] by {
            if i < n {
                assert(s.subrange(20 * i, 20 * i + 20) =~= a.subrange(20 * i, 20 * i + 20));
                assert(cut(a)[i] == t[i]);
            } else {
                assert(s.subrange(20 * n, 20 * n + 20) =~= ids[n]);
            }
        }
    }
    assert(cut(s) =~= ids);
}

/// A reply with samples survives its bencoded form.
pub proof fn law_samples_round_trip(message: Samples)
    requires
        message.id.len() == 20,
        readable(message.nodes),
        forall|i: int|
            0 <= i < message.info_hashes.len() ==> (#[trigger] message.info_hashes[i]).len() == 20,
    ensures
        SampleInfoHashesReply::of_value(SampleInfoHashesReply::to_value(message)) == Some(message),
{
    lemma_keys();
    let d0 = id_dict(message.id);
    let d1 = dict_insert(d0, text("interval"), Value::Int(message.interval as i64));
    let d2 = dict_insert(d1, text("num"), Value::Int(message.num as i64));
    let d3 = dict_insert(d2, text("samples"), Value::Str(joined(message.info_hashes)));
    lemma_inserted(no_entries(), text("id"), Value::Str(message.id));
    lemma_inserted(d0, text("interval"), Value::Int(message.interval as i64));
    lemma_inserted(d1, text("num"), Value::Int(message.num as i64));
    lemma_inserted(d2, text("samples"), Value::Str(joined(message.info_hashes)));
    lemma_with_nodes(d3, message.nodes);
    lemma_cut_joined(message.info_hashes);
}

/// An error survives its bencoded form.
pub proof fn law_error_round_trip(message: (i64, Seq<char>))
    ensures
        ErrorReply::of_value(ErrorReply::to_value(message)) == Some(message),
{
    vstd::utf8::encode_utf8_valid_utf8(message.1);
    vstd::utf8::encode_utf8_decode_utf8(message.1);
}

/// Under which keys queries carry what they say, and how they are called.
pub proof fn law_query_keys(id: Seq<u8>, other: Seq<u8>, a: Announcement)
    ensures
        PingQuery::method() == text("ping"),
        FindNodeQuery::method() == text("find_node"),
        GetPeersQuery::method() == text("get_peers"),
        AnnouncePeerQuery::method() == text("announce_peer"),
        SampleInfoHashesQuery::method() == text("sample_infohashes"),
        str_field(PingQuery::to_value(id), text("id")) == Some(id),
        str_field(FindNodeQuery::to_value((id, other)), text("id")) == Some(id),
        str_field(FindNodeQuery::to_value((id, other)), text("target")) == Some(other),
        str_field(GetPeersQuery::to_value((id, other)), text("id")) == Some(id),
        str_field(GetPeersQuery::to_value((id, other)), text("info_hash")) == Some(other),
        str_field(SampleInfoHashesQuery::to_value((id, other)), text("id")) == Some(id),
        str_field(SampleInfoHashesQuery::to_value((id, other)), text("target")) == Some(other),
        str_field(AnnouncePeerQuery::to_value(a), text("id")) == Some(a.id),
        str_field(AnnouncePeerQuery::to_value(a), text("info_hash")) == Some(a.info_hash),
        int_field(AnnouncePeerQuery::to_value(a), text("port")) == Some(a.port as i64),
        str_field(AnnouncePeerQuery::to_value(a), text("token")) == Some(a.token),
        int_field(AnnouncePeerQuery::to_value(a), text("implied_port")) == Some(
            if a.implied_port {
                1i64
            } else {
                0
            },
        ),
{
    lemma_keys();
    lemma_inserted(no_entries(), text("id"), Value::Str(id));
    lemma_two_ids(id, text("target"), other);
    lemma_two_ids(id, text("info_hash"), other);
    lemma_two_ids(a.id, text("info_hash"), a.info_hash);
    let d0 = two_ids(a.id, text("info_hash"), a.info_hash);
    let d1 = dict_insert(d0, text("port"), Value::Int(a.port as i64));
    let d2 = dict_insert(d1, text("token"), Value::Str(a.token));
    let implied: i64 = if a.implied_port {
        1
    } else {
        0
    };
    lemma_inserted(d0, text("port"), Value::Int(a.port as i64));
    lemma_inserted(d1, text("token"), Value::Str(a.token));
    lemma_inserted(d2, text("implied_port"), Value::Int(implied));
}

/// What a message that was read says stands under these keys: identifiers of 20 bytes, and
/// for an announcement the port, the token, and whether the port is that of the sender, which
/// it is only where it is said.
pub proof fn law_query_read(v: Value, id: Seq<u8>, other: Seq<u8>, a: Announcement)
    ensures
        PingQuery::of_value(v) == Some(id) <==> id.len() == 20 && str_field(v, text("id")) == Some(
            id,
        ),
        FindNodeQuery::of_value(v) == Some((id, other)) <==> id.len() == 20 && other.len() == 20
            && str_field(v, text("id")) == Some(id) && str_field(v, text("target")) == Some(other),
        GetPeersQuery::of_value(v) == Some((id, other)) <==> id.len() == 20 && other.len() == 20
            && str_field(v, text("id")) == Some(id) && str_field(v, text("info_hash")) == Some(
            other,
        ),
        AnnouncePeerQuery::of_value(v) == Some(a) ==> {
            &&& str_field(v, text("id")) == Some(a.id) && a.id.len() == 20
            &&& str_field(v, text("info_hash")) == Some(a.info_hash) && a.info_hash.len() == 20
            &&& str_field(v, text("token")) == Some(a.token)
            &&& int_field(v, text("port")) matches Some(port) && port as u16 == a.port
            &&& a.implied_port <==> int_field(v, text("implied_port")) == Some(1i64)
        },
{
}

/// Under which keys replies carry what they say: nodes stand under `nodes`, or under
/// `nodes6` where the first has an IPv6 address, and peers under `values` where there are
/// any.
pub proof fn law_reply_keys(
    id: Seq<u8>,
    nodes: Seq<(Seq<u8>, SocketAddr)>,
    peers: PeersReply,
    samples: Samples,
)
    ensures
        str_field(PingReply::to_value(id), text("id")) == Some(id),
        str_field(AnnouncePeerReply::to_value(id), text("id")) == Some(id),
        str_field(FindNodeReply::to_value((id, nodes)), text("id")) == Some(id),
        str_field(
            FindNodeReply::to_value((id, nodes)),
            if nodes.len() > 0 && nodes[0].1 is V6 {
                text("nodes6")
            } else {
                text("nodes")
            },
        ) == Some(nodes_bytes(nodes)),
        str_field(GetPeersReply::to_value(peers), text("id")) == Some(peers.id),
        str_field(GetPeersReply::to_value(peers), text("token")) == Some(peers.token),
        str_field(
            GetPeersReply::to_value(peers),
            if peers.nodes.len() > 0 && peers.nodes[0].1 is V6 {
                text("nodes6")
            } else {
                text("nodes")
            },
        ) == Some(nodes_bytes(peers.nodes)),
        match field(GetPeersReply::to_value(peers), text("values")) {
            Some(v) => {
                &&& peers.values.len() > 0
                &&& v matches Value::List(l)
                &&& l.len() == peers.values.len()
                &&& forall|i: int|
                    0 <= i < l.len() ==> #[trigger] l[i] == Value::Str(
                        compact_ip(peers.values[i]),
                    )
            },
            None => peers.values.len() == 0,
        },
        str_field(SampleInfoHashesReply::to_value(samples), text("id")) == Some(samples.id),
        int_field(SampleInfoHashesReply::to_value(samples), text("interval")) == Some(
            samples.interval as i64,
        ),
        int_field(SampleInfoHashesReply::to_value(samples), text("num")) == Some(
            samples.num as i64,
        ),
        str_field(SampleInfoHashesReply::to_value(samples), text("samples")) == Some(
            joined(samples.info_hashes),
        ),
{
    lemma_keys();
    lemma_inserted(no_entries(), text("id"), Value::Str(id));
    lemma_inserted(id_dict(id), nodes_key(nodes), Value::Str(nodes_bytes(nodes)));
    lemma_inserted(no_entries(), text("id"), Value::Str(peers.id));
    let d0 = id_dict(peers.id);
    let d1 = dict_insert(d0, text("token"), Value::Str(peers.token));
    let d2 = with_nodes(d1, peers.nodes);
    lemma_inserted(d0, text("token"), Value::Str(peers.token));
    lemma_inserted(d1, nodes_key(peers.nodes), Value::Str(nodes_bytes(peers.nodes)));
    lemma_inserted(d2, text("values"), Value::List(addr_values(peers.values)));
    lemma_inserted(no_entries(), text("id"), Value::Str(samples.id));
    let e0 = id_dict(samples.id);
    let e1 = dict_insert(e0, text("interval"), Value::Int(samples.interval as i64));
    let e2 = dict_insert(e1, text("num"), Value::Int(samples.num as i64));
    let e3 = dict_insert(e2, text("samples"), Value::Str(joined(samples.info_hashes)));
    lemma_inserted(e0, text("interval"), Value::Int(samples.interval as i64));
    lemma_inserted(e1, text("num"), Value::Int(samples.num as i64));
    lemma_inserted(e2, text("samples"), Value::Str(joined(samples.info_hashes)));
    lemma_inserted(e3, nodes_key(samples.nodes), Value::Str(nodes_bytes(samples.nodes)));
}

/// A reply to a search for peers needs neither nodes nor peers: where they are missing there
/// are none.
pub proof fn law_peers_reply_parts(v: Value)
    ensures
        match GetPeersReply::of_value(v) {
            Some(m) => {
                &&& str_field(v, text("id")) == Some(m.id) && m.id.len() == 20
                &&& str_field(v, text("token")) == Some(m.token)
                &&& field(v, text("nodes")) is None && field(v, text("nodes6")) is None
                    ==> m.nodes.len() == 0
                &&& field(v, text("values")) is None ==> m.values.len() == 0
            },
            None => !({
                &&& id_field(v, text("id")) is Some
                &&& str_field(v, text("token")) is Some
                &&& field(v, text("nodes")) is None && field(v, text("nodes6")) is None
                &&& field(v, text("values")) is None
            }),
        },
{
}

/// Identifiers that are joined stand one behind the other.
pub proof fn law_joined(ids: Seq<Seq<u8>>, i: int)
    requires
        forall|k: int| 0 <= k < ids.len() ==> (#[trigger] ids[k]).len() == 20,
        0 <= i < ids.len(),
    ensures
        joined(ids).len() == 20 * ids.len(),
        joined(ids).subrange(20 * i, 20 * i + 20) == ids[i],
{
    lemma_cut_joined(ids);
    assert(cut(joined(ids))[i] == ids[i]);
}

/// The nodes in a reply are those under `nodes`, or else under `nodes6`, and the peers those
/// in the list under `values`, one for each item.
pub proof fn law_peers_reply_read(v: Value)
    requires
        GetPeersReply::of_value(v) is Some,
    ensures
        ({
            let m = GetPeersReply::of_value(v)->Some_0;
            &&& field(v, text("nodes")) matches Some(nodes) ==> (nodes matches Value::Str(s)
                && parsed_nodes(s) == Some(m.nodes))
            &&& field(v, text("nodes")) is None ==> (field(v, text("nodes6")) matches Some(nodes)
                ==> (nodes matches Value::Str(s) && parsed_nodes(s) == Some(m.nodes)))
            &&& field(v, text("values")) matches Some(values) ==> (values matches Value::List(l)
                && l.len() == m.values.len() && forall|i: int|
                0 <= i < l.len() ==> (#[trigger] l[i] matches Value::Str(s) && parsed_ip(s) == Some(
                    m.values[i],
                )))
        }),
{
    let m = GetPeersReply::of_value(v)->Some_0;
    if let Some(values) = field(v, text("values")) {
        let l = values->List_0;
        assert forall|i: int| 0 <= i < l.len() implies (#[trigger] l[i] matches Value::Str(s)
            && parsed_ip(s) == Some(m.values[i])) by {
            assert(addr_of(l[i]) is Some);
        }
    }
}

/// The hashes in a sample are those that stand one behind the other under `samples`, twenty
/// bytes each; the interval and the number of hashes are numbers of 32 bits.
pub proof fn law_samples_read(v: Value, i: int)
    requires
        SampleInfoHashesReply::of_value(v) is Some,
    ensures
        ({
            let m = SampleInfoHashesReply::of_value(v)->Some_0;
            &&& str_field(v, text("id")) == Some(m.id) && m.id.len() == 20
            &&& int_field(v, text("interval")) == Some(m.interval as i64)
            &&& int_field(v, text("num")) == Some(m.num as i64)
            &&& str_field(v, text("samples")) matches Some(s) && {
                &&& 20 * m.info_hashes.len() <= s.len() < 20 * m.info_hashes.len() + 20
                &&& 0 <= i < m.info_hashes.len() ==> m.info_hashes[i] == s.subrange(
                    20 * i,
                    20 * i + 20,
                )
            }
        }),
{
}

/// Nodes are read from whole records: of 26 bytes, or else of 38.
pub proof fn law_nodes_read(s: Seq<u8>)
    ensures
        match parsed_nodes(s) {
            Some(nodes) => s.len() == 26 * nodes.len() || s.len() == 38 * nodes.len(),
            None => s.len() % 26 != 0 && s.len() % 38 != 0,
        },
        s.len() % 26 == 0 ==> (parsed_nodes(s) matches Some(nodes) && s.len() == 26 * nodes.len()),
{
}

} // verus!
