//! A node of the DHT: how it answers queries, and how it keeps its routing table.

use super::routing_table::{
    is_node, is_zero_id, law_add, law_closest, law_timeout, law_update, law_update_result,
    lemma_small_buckets, refreshed, worse, RoutingTable, Table,
};
use super::search::{pruned, sort_node_and_unique, GetPeersSearch, Lookup, Search};
use crate::assoc::AssocMap;
use crate::bencode::fields::{field, int_field, str_field};
use crate::bencode::value::{decode, dict_insert, encode, Value};
use crate::bencode::Object;
use crate::bytes::{big_endian, bytes_equal, copy_slice, lemma_big_endian_2, text};
use crate::clock::system_time;
use crate::kad::addr::{add_addr, insert_addr, law_insert_addr, SocketAddr};
use crate::kad::bucket::{
    lemma_shared_bits_bound, shared_bits, Node, NodeStatus, KBUCKET_SIZE,
};
use crate::kad::compact::compact_ip;
use crate::kad::distance::sort_by_distance;
use crate::kad::nodeid::{
    distance_less, id_from, lemma_id_eq, lemma_id_from, lemma_same_bytes, InfoHash, NodeId,
};
use crate::krpc::context::{
    incoming, is_query, law_reply_fields, make_reply, pending_after, query_value, reply_of, reply_value,
    Incoming, KrpcContext,
    KrpcProcess,
};
use crate::krpc::messages::{
    addr_values, id_dict, law_announce_peer_round_trip, law_reply_keys, lemma_inserted, lemma_keys, nodes_key,
    with_nodes, AnnouncePeerQuery, AnnouncePeerReply, Announcement, ErrorReply, FindNodeQuery, FindNodeReply,
    GetPeersQuery, GetPeersReply, KrpcQuery, Message, PeersReply, PingQuery, PingReply,
    SampleInfoHashesQuery, Samples,
};
use crate::krpc::nodes::{node_views, nodes_bytes};
use crate::random::shuffle_addrs;
use crate::strings::{lossy_text, string_from_utf8_lossy};
use vstd::prelude::*;
use vstd::string::StringExecFns;
use vstd::utf8::encode_utf8;

verus! {

/// The nanoseconds after which a node is refreshed.
pub const MIN_REFRESH_INTERVAL: u128 = 60_000_000_000;

/// How many peers a reply holds at most.
pub const MAX_VALUES: usize = 8;

/// How often a query is tried.
pub const MAX_TRIES: usize = 2;

/// With how many nodes a table counts as filled when the node starts.
pub const BOOTSTRAP_NODES: usize = 50;

/// How many random searches fill the table when the node starts.
pub const BOOTSTRAP_SEARCHES: usize = 10;

/// Under how many nodes a node has to start again.
pub const MIN_NODES: usize = 8;

/// The port that is announced where none is given.
pub const DEFAULT_PORT: u16 = 6881;

/// What came of an incoming packet.
#[derive(Debug)]
pub struct UdpOutcome {
    /// Whether the packet was one for the DHT.
    pub handled: bool,
    /// The packet to send back.
    pub reply: Option<Vec<u8>>,
    /// The transaction id of the query that is answered, and the message.
    pub delivered: Option<(u16, Object)>,
    /// The torrent and the peer that were announced.
    pub announced: Option<(InfoHash, SocketAddr)>,
    /// The method of the query that was answered.
    pub queried: Option<Vec<u8>>,
}

/// What came of an incoming packet.
#[verifier::ext_equal]
pub struct Outcome {
    pub handled: bool,
    pub reply: Option<Seq<u8>>,
    pub delivered: Option<(u16, Value)>,
    pub announced: Option<(InfoHash, SocketAddr)>,
    pub queried: Option<Seq<u8>>,
}

impl View for UdpOutcome {
    type V = Outcome;

    open spec fn view(&self) -> Outcome {
        Outcome {
            handled: self.handled,
            reply: match self.reply {
                Some(bytes) => Some(bytes@),
                None => None,
            },
            delivered: match self.delivered {
                Some((tid, object)) => Some((tid, object@)),
                None => None,
            },
            announced: self.announced,
            queried: match self.queried {
                Some(method) => Some(method@),
                None => None,
            },
        }
    }
}

/// How a query to a node ended.
#[derive(Debug, Clone, Copy, PartialEq, Eq, Structural)]
pub enum CallOutcome {
    Replied,
    TimedOut,
    Failed,
}

/// The packet is none for the DHT.
pub open spec fn refused() -> Outcome {
    Outcome { handled: false, reply: None, delivered: None, announced: None, queried: None }
}

/// The query is answered with an error.
pub open spec fn error_answer(tid: Seq<u8>, code: i64, message: Seq<char>) -> Outcome {
    Outcome {
        handled: true,
        reply: Some(encode(reply_value(tid, ErrorReply::to_value((code, message))))),
        ..refused()
    }
}

/// The query is answered with a reply.
pub open spec fn answer(tid: Seq<u8>, method: Seq<u8>, reply: Value) -> Outcome {
    Outcome {
        handled: true,
        reply: Some(encode(reply_value(tid, reply))),
        queried: Some(method),
        ..refused()
    }
}

/// The transaction id, the method and the arguments of a query.
pub open spec fn query_part(v: Value) -> Option<(Seq<u8>, Seq<u8>, Value)> {
    match (str_field(v, text("t")), str_field(v, text("q")), field(v, text("a"))) {
        (Some(tid), Some(method), Some(arguments)) => if is_query(v) {
            Some((tid, method, arguments))
        } else {
            None
        },
        _ => None,
    }
}

/// Whether `values` can be offered where `stored` is known: all of them where they are
/// few, else as many as a reply holds, picked at random.
pub open spec fn sample_of(stored: Seq<SocketAddr>, values: Seq<SocketAddr>) -> bool {
    if stored.len() <= MAX_VALUES {
        values == stored
    } else {
        exists|order: Seq<SocketAddr>| #[trigger]
            order.to_multiset() == stored.to_multiset() && values == order.take(MAX_VALUES as int)
    }
}

/// The state of a node: its identifier, the family of its addresses, its routing table,
/// the peers of each torrent that were announced to it, and its pending queries.
#[verifier::ext_equal]
pub struct Session {
    pub id: NodeId,
    pub ipv4: bool,
    pub table: Table,
    pub peers: Map<InfoHash, Seq<SocketAddr>>,
    pub pending: Set<u16>,
    pub next_tid: u16,
}

impl Session {
    /// The peers of a torrent that are known.
    pub open spec fn stored(self, hash: InfoHash) -> Seq<SocketAddr> {
        if self.peers.dom().contains(hash) {
            self.peers[hash]
        } else {
            seq![]
        }
    }

    /// The state once a node was heard of.
    pub open spec fn seen(self, id: Seq<u8>, ip: SocketAddr, now: u128) -> Session {
        Session { table: self.table.update(id_from(id), ip, now), ..self }
    }

    /// The state once a peer of a torrent was announced.
    pub open spec fn with_peer(self, hash: InfoHash, peer: SocketAddr) -> Session {
        Session { peers: self.peers.insert(hash, insert_addr(self.stored(hash), peer)), ..self }
    }

    /// The peers that a query asks for.
    pub open spec fn asked_peers(self, query: Value) -> Seq<SocketAddr> {
        match query_part(query) {
            Some((_, method, arguments)) => if method == GetPeersQuery::method() {
                match GetPeersQuery::of_value(arguments) {
                    Some((_, hash)) => self.stored(id_from(hash)),
                    None => seq![],
                }
            } else {
                seq![]
            },
            None => seq![],
        }
    }

    /// The next state and what comes of a query from `ip`, whose text is `ip_text`, where
    /// `values` are the peers to offer.
    pub open spec fn queried(
        self,
        query: Value,
        ip: SocketAddr,
        ip_text: Seq<u8>,
        values: Seq<SocketAddr>,
        now: u128,
    ) -> (Session, Outcome) {
        match query_part(query) {
            Some((tid, method, arguments)) => if method == PingQuery::method() {
                self.pinged(tid, arguments, ip, now)
            } else if method == FindNodeQuery::method() {
                self.asked_for_nodes(tid, arguments, ip, now)
            } else if method == GetPeersQuery::method() {
                self.asked_for_peers(tid, arguments, ip, ip_text, values, now)
            } else if method == AnnouncePeerQuery::method() {
                self.announced(tid, arguments, ip, ip_text, now)
            } else {
                (self, error_answer(tid, 202, "Unknown method: "@ + lossy_text(method)))
            },
            None => (self, refused()),
        }
    }

    /// A ping is answered with the own identifier.
    pub open spec fn pinged(self, tid: Seq<u8>, arguments: Value, ip: SocketAddr, now: u128) -> (
        Session,
        Outcome,
    ) {
        match PingQuery::of_value(arguments) {
            Some(id) => (
                self.seen(id, ip, now),
                answer(tid, PingQuery::method(), PingReply::to_value(self.id@)),
            ),
            None => (self, refused()),
        }
    }

    /// A search for a node is answered with the closest nodes.
    pub open spec fn asked_for_nodes(
        self,
        tid: Seq<u8>,
        arguments: Value,
        ip: SocketAddr,
        now: u128,
    ) -> (Session, Outcome) {
        match FindNodeQuery::of_value(arguments) {
            Some((id, target)) => (
                self.seen(id, ip, now),
                answer(
                    tid,
                    FindNodeQuery::method(),
                    FindNodeReply::to_value(
                        (self.id@, node_views(self.table.closest(id_from(target)))),
                    ),
                ),
            ),
            None => (self, refused()),
        }
    }

    /// A search for peers is answered with the closest nodes, the peers, and the address
    /// of the sender as the token.
    pub open spec fn asked_for_peers(
        self,
        tid: Seq<u8>,
        arguments: Value,
        ip: SocketAddr,
        ip_text: Seq<u8>,
        values: Seq<SocketAddr>,
        now: u128,
    ) -> (Session, Outcome) {
        match GetPeersQuery::of_value(arguments) {
            Some((id, hash)) => (
                self.seen(id, ip, now),
                answer(
                    tid,
                    GetPeersQuery::method(),
                    GetPeersReply::to_value(
                        PeersReply {
                            id: self.id@,
                            token: ip_text,
                            nodes: node_views(self.table.closest(id_from(hash))),
                            values,
                        },
                    ),
                ),
            ),
            None => (self, refused()),
        }
    }

    /// An announcement with the right token is taken in; one with another is answered with
    /// an error.
    pub open spec fn announced(
        self,
        tid: Seq<u8>,
        arguments: Value,
        ip: SocketAddr,
        ip_text: Seq<u8>,
        now: u128,
    ) -> (Session, Outcome) {
        match AnnouncePeerQuery::of_value(arguments) {
            Some(query) => if query.token != ip_text {
                (self, error_answer(tid, 203, "Invalid token"@))
            } else {
                let peer = if query.implied_port {
                    ip
                } else {
                    ip.spec_with_port(query.port)
                };
                let hash = id_from(query.info_hash);
                (
                    self.with_peer(hash, peer).seen(query.id, ip, now),
                    Outcome {
                        announced: Some((hash, peer)),
                        ..answer(
                            tid,
                            AnnouncePeerQuery::method(),
                            AnnouncePeerReply::to_value(self.id@),
                        )
                    },
                )
            },
            None => (self, refused()),
        }
    }

    /// The next state and what comes of an incoming packet.
    pub open spec fn received(
        self,
        bytes: Seq<u8>,
        ip: SocketAddr,
        ip_text: Seq<u8>,
        values: Seq<SocketAddr>,
        now: u128,
    ) -> (Session, Outcome) {
        match incoming(self.pending, bytes) {
            Incoming::Query(query) => self.queried(query, ip, ip_text, values, now),
            Incoming::Reply(tid, message) => (
                Session { pending: pending_after(self.pending, bytes), ..self },
                Outcome { handled: true, delivered: Some((tid, message)), ..refused() },
            ),
            Incoming::Invalid => (self, refused()),
        }
    }

    /// Whether `values` can be offered in answer to an incoming packet.
    pub open spec fn may_offer(self, bytes: Seq<u8>, values: Seq<SocketAddr>) -> bool {
        match incoming(self.pending, bytes) {
            Incoming::Query(query) => sample_of(self.asked_peers(query), values),
            _ => true,
        }
    }

    /// Whether a query that ended is tried again.
    pub open spec fn retries(tries: usize, outcome: CallOutcome) -> bool {
        outcome == CallOutcome::TimedOut && tries + 1 < MAX_TRIES
    }

    /// The state once the last try of a query to a node has ended. A zero identifier is
    /// that of a node whose identifier is not known.
    pub open spec fn called(
        self,
        outcome: CallOutcome,
        id: NodeId,
        ip: SocketAddr,
        now: u128,
    ) -> Session {
        if is_zero_id(id) {
            self
        } else if outcome == CallOutcome::Replied {
            Session { table: self.table.update(id, ip, now), ..self }
        } else {
            Session { table: self.table.timeout(id), ..self }
        }
    }

    /// The state once a node that replied was put into the table.
    pub open spec fn added(self, id: NodeId, ip: SocketAddr, now: u128) -> Session {
        Session { table: self.table.split_for(id, ip).update(id, ip, now), ..self }
    }
}

/// A search that starts with the given nodes to ask.
pub open spec fn new_search(queue: Seq<(NodeId, SocketAddr)>, target: NodeId, ipv4: bool) -> Search {
    Search {
        target,
        ipv4,
        queue,
        visited: Map::empty(),
        collected: seq![],
        nearest: seq![],
        convergence: 0,
        completed: 0,
        in_flight: 0,
        converged: false,
    }
}

/// The routers of the session's family, as nodes whose identifier is not known.
pub open spec fn router_nodes(addrs: Seq<SocketAddr>, ipv4: bool) -> Seq<(NodeId, SocketAddr)>
    decreases addrs.len(),
{
    if addrs.len() == 0 {
        seq![]
    } else {
        let before = router_nodes(addrs.drop_last(), ipv4);
        if addrs.last() is V4 == ipv4 {
            before.push((id_from(Seq::new(20, |i: int| 0u8)), addrs.last()))
        } else {
            before
        }
    }
}

/// The node that is refreshed, last seen the given nanoseconds ago.
pub open spec fn aged(
    r: Option<(NodeId, SocketAddr, FindNodeQuery)>,
    age: u128,
) -> Option<(NodeId, SocketAddr, u128)> {
    match r {
        Some((id, ip, _)) => Some((id, ip, age)),
        None => None,
    }
}

/// A node of the DHT.
pub struct DhtSession {
    table: RoutingTable,
    peers: AssocMap<InfoHash, Vec<SocketAddr>>,
    krpc: KrpcContext,
    id: NodeId,
    ipv4: bool,
}

impl View for DhtSession {
    type V = Session;

    closed spec fn view(&self) -> Session {
        Session {
            id: self.id,
            ipv4: self.ipv4,
            table: self.table@,
            peers: self.peers@.map_values(|peers: Vec<SocketAddr>| peers@),
            pending: self.krpc.pending(),
            next_tid: self.krpc.next_tid(),
        }
    }
}

/// The transaction id, the method and the arguments of a query.
fn extract_query_part(msg: &Object) -> (r: Option<(&Vec<u8>, &Vec<u8>, &Object)>)
    ensures
        match r {
            Some((tid, method, arguments)) => query_part(msg@) == Some(
                (tid@, method@, arguments@),
            ),
            None => query_part(msg@) is None,
        },
{
    match (msg.str_field("t"), msg.str_field("y"), msg.str_field("q"), msg.field("a")) {
        (Some(tid), Some(y), Some(method), Some(arguments)) => {
            if !bytes_equal(y.as_slice(), "q".as_bytes()) {
                return None;
            }
            Some((tid, method, arguments))
        },
        _ => None,
    }
}

fn refuse() -> (r: UdpOutcome)
    ensures
        r@ == refused(),
{
    UdpOutcome { handled: false, reply: None, delivered: None, announced: None, queried: None }
}

fn answer_error(tid: &[u8], code: i64, msg: String) -> (r: UdpOutcome)
    ensures
        r@ == error_answer(tid@, code, msg@),
{
    let reply = ErrorReply { code, msg };
    UdpOutcome {
        handled: true,
        reply: Some(make_reply(tid, &reply)),
        delivered: None,
        announced: None,
        queried: None,
    }
}

fn answer_with<T: crate::krpc::messages::KrpcReply>(tid: &[u8], method: &[u8], reply: &T) -> (r:
    UdpOutcome)
    ensures
        r@ == answer(tid@, method@, T::to_value(reply@)),
{
    UdpOutcome {
        handled: true,
        reply: Some(make_reply(tid, reply)),
        delivered: None,
        announced: None,
        queried: Some(copy_slice(method)),
    }
}

impl DhtSession {
    /// Whether the parts are well formed, and the node asks on sockets of its own family.
    pub closed spec fn wf(&self) -> bool {
        self.table.wf() && self.peers.wf() && self.krpc.spec_ipv4() == self.ipv4
    }

    /// A node with an empty table.
    pub fn new(id: NodeId, krpc: KrpcContext) -> (r: DhtSession)
        ensures
            r.wf(),
            r@.id == id,
            r@.ipv4 == krpc.spec_ipv4(),
            r@.pending == krpc.pending(),
            r@.next_tid == krpc.next_tid(),
            r@.peers == Map::<InfoHash, Seq<SocketAddr>>::empty(),
            r@.table.id == id,
            r@.table.ips == Set::<SocketAddr>::empty(),
            r@.table.routers == Set::<SocketAddr>::empty(),
            r@.table.buckets.len() == 1,
            r@.table.buckets[0].nodes.len() == 0,
    {
        let ipv4: bool = krpc.is_ipv4();
        let r = DhtSession {
            table: RoutingTable::new(id),
            peers: AssocMap::new(),
            krpc,
            id,
            ipv4,
        };
        assert(r@.peers =~= Map::<InfoHash, Seq<SocketAddr>>::empty());
        r
    }

    /// The routing table.
    pub fn routing_table(&self) -> (r: &RoutingTable)
        requires
            self.wf(),
        ensures
            r.wf(),
            r@ == self@.table,
    {
        &self.table
    }

    /// Whether an address is of the session's family.
    fn is_native_addr(&self, addr: &SocketAddr) -> (r: bool)
        ensures
            r == (*addr is V4 == self@.ipv4),
    {
        addr.is_ipv4() == self.ipv4
    }

    /// Starts a search for a node among the nodes that the table has closest to it.
    pub fn find_node(&self, target: NodeId) -> (r: Lookup)
        requires
            self.wf(),
        ensures
            r.wf(),
            r@ == new_search(
                pruned(target@, self@.table.closest(target)),
                target,
                self@.ipv4,
            ),
    {
        self.find_node_from(self.table.find_node(target), target)
    }

    /// Starts a search for a node among the given nodes.
    pub fn find_node_from(&self, queue: Vec<(NodeId, SocketAddr)>, target: NodeId) -> (r: Lookup)
        ensures
            r.wf(),
            r@ == new_search(pruned(target@, queue@), target, self@.ipv4),
    {
        let mut queue = queue;
        sort_node_and_unique(&mut queue, target);
        Lookup::new(queue, target, self.ipv4)
    }

    /// Starts a search for the peers of a torrent.
    pub fn get_peers(&self, hash: InfoHash) -> (r: GetPeersSearch)
        requires
            self.wf(),
        ensures
            r.wf(),
            r.search() == new_search(self@.table.closest(hash), hash, self@.ipv4),
            r.peers() == Seq::<SocketAddr>::empty(),
    {
        GetPeersSearch::new(self.table.find_node(hash), hash, self.ipv4)
    }

    /// Takes in the reply of a node to a search for a node.
    pub fn find_node_replied(&mut self, search: &mut Lookup, ip: SocketAddr, reply: &FindNodeReply)
        requires
            old(self).wf(),
            old(search).wf(),
            old(search)@.in_flight > 0,
            !old(search)@.finished(),
        ensures
            final(self).wf(),
            final(search).wf(),
            final(search)@ == old(search)@.replied(ip, seq![], reply.nodes@),
            exists|now: u128| final(self)@ == old(self)@.added(reply.id, ip, now),
    {
        let now: u128 = system_time();
        let _ = self.table.add_node_at(reply.id, &ip, now);
        search.query_replied(ip, Vec::new(), &reply.nodes);
        assert(self@ =~= old(self)@.added(reply.id, ip, now));
    }

    /// Takes in the reply of a node to a search for peers.
    pub fn get_peers_replied(
        &mut self,
        search: &mut GetPeersSearch,
        ip: SocketAddr,
        reply: GetPeersReply,
    )
        requires
            old(self).wf(),
            old(search).wf(),
            old(search).search().in_flight > 0,
            !old(search).search().finished(),
        ensures
            final(self).wf(),
            final(search).wf(),
            final(search).search() == old(search).search().replied(
                ip,
                reply.token@,
                reply.nodes@,
            ),
            final(search).peers() == crate::kad::addr::insert_addrs(
                old(search).peers(),
                reply.values@,
            ),
            exists|now: u128| final(self)@ == old(self)@.added(reply.id, ip, now),
    {
        let now: u128 = system_time();
        let _ = self.table.add_node_at(reply.id, &ip, now);
        assert(self@ =~= old(self)@.added(reply.id, ip, now));
        search.query_replied(ip, reply.token, &reply.nodes, &reply.values);
    }

    /// Notes how a try of a query to a node has ended. The result says whether to try
    /// again; where not, the table is updated.
    pub fn call_ended(
        &mut self,
        tries: usize,
        outcome: CallOutcome,
        id: NodeId,
        ip: SocketAddr,
    ) -> (r: bool)
        requires
            old(self).wf(),
            tries < MAX_TRIES,
        ensures
            final(self).wf(),
            r == Session::retries(tries, outcome),
            r ==> final(self)@ == old(self)@,
            !r ==> exists|now: u128| final(self)@ == old(self)@.called(outcome, id, ip, now),
    {
        if outcome == CallOutcome::TimedOut && tries + 1 < MAX_TRIES {
            return true;
        }
        let now: u128 = system_time();
        if !id.is_zero() {
            if outcome == CallOutcome::Replied {
                let _ = self.table.update_node_at(id, &ip, now);
            } else {
                self.table.node_timeout(id);
            }
        }
        assert(self@ =~= old(self)@.called(outcome, id, ip, now));
        false
    }

    /// Starts a query of any kind: gives its transaction id and its packet.
    pub fn start_query<T: KrpcQuery>(&mut self, query: &T) -> (r: (u16, Vec<u8>))
        requires
            old(self).wf(),
        ensures
            final(self).wf(),
            r.0 == old(self)@.next_tid,
            r.1@ == encode(query_value(r.0, T::method(), T::to_value(query@))),
            final(self)@ == (Session {
                pending: old(self)@.pending.insert(r.0),
                next_tid: (if r.0 == u16::MAX {
                    0
                } else {
                    (r.0 + 1) as u16
                }),
                ..old(self)@
            }),
    {
        let r = self.krpc.send_krpc(query);
        assert(self@.pending =~= old(self)@.pending.insert(r.0));
        r
    }

    /// Forgets a query.
    pub fn cancel_query(&mut self, tid: u16)
        requires
            old(self).wf(),
        ensures
            final(self).wf(),
            final(self)@ == (Session { pending: old(self)@.pending.remove(tid), ..old(self)@ }),
    {
        self.krpc.cancel(tid);
    }

    /// The query that asks whether a node is there.
    pub fn ping(&self) -> (r: PingQuery)
        ensures
            r@ == self@.id@,
    {
        PingQuery { id: self.id }
    }

    /// The query that announces a peer of a torrent, at the given port, or else at the
    /// port that the query comes from.
    pub fn announce_peer(&self, hash: InfoHash, port: Option<u16>, token: Vec<u8>) -> (r:
        AnnouncePeerQuery)
        ensures
            r@ == (Announcement {
                id: self@.id@,
                info_hash: hash@,
                port: (match port {
                    Some(port) => port,
                    None => DEFAULT_PORT,
                }),
                token: token@,
                implied_port: port is None,
            }),
    {
        let (port, implied_port): (u16, bool) = match port {
            Some(port) => (port, false),
            None => (DEFAULT_PORT, true),
        };
        AnnouncePeerQuery { id: self.id, info_hash: hash, port, token, implied_port }
    }

    /// The query for some of the info hashes that a node knows.
    pub fn sample_infohashes(&self, target: NodeId) -> (r: SampleInfoHashesQuery)
        ensures
            r@ == (self@.id@, target@),
    {
        SampleInfoHashesQuery { id: self.id, target }
    }

    /// Handles an incoming packet from `ip`, whose text is `ip_text`.
    pub fn process_udp(&mut self, bytes: &[u8], ip: &SocketAddr, ip_text: &[u8]) -> (r: UdpOutcome)
        requires
            old(self).wf(),
        ensures
            final(self).wf(),
            exists|values: Seq<SocketAddr>, now: u128|
                old(self)@.may_offer(bytes@, values) && (final(self)@, r@)
                    == #[trigger] old(self)@.received(bytes@, *ip, ip_text@, values, now),
    {
        let ghost s = self@;
        let now: u128 = system_time();
        match self.krpc.process_udp(bytes) {
            KrpcProcess::Query(query) => {
                assert(self@ =~= s);
                let values = self.pick_values(&query);
                let ghost v = values@;
                let r = self.process_query(&query, ip, ip_text, values, now);
                assert((self@, r@) == s.received(bytes@, *ip, ip_text@, v, now));
                r
            },
            KrpcProcess::Reply(tid, message) => {
                let r = UdpOutcome {
                    handled: true,
                    reply: None,
                    delivered: Some((tid, message)),
                    announced: None,
                    queried: None,
                };
                assert(self@ =~= s.received(bytes@, *ip, ip_text@, seq![], now).0);
                assert(s.may_offer(bytes@, seq![]));
                assert((self@, r@) == s.received(bytes@, *ip, ip_text@, seq![], now));
                r
            },
            KrpcProcess::InvalidMessage => {
                let r = refuse();
                assert(self@ =~= s);
                assert(s.may_offer(bytes@, seq![]));
                assert((self@, r@) == s.received(bytes@, *ip, ip_text@, seq![], now));
                r
            },
        }
    }

    /// The peers to offer in answer to a query.
    fn pick_values(&self, query: &Object) -> (r: Vec<SocketAddr>)
        requires
            self.wf(),
        ensures
            sample_of(self@.asked_peers(query@), r@),
    {
        proof {
            lemma_id_eq();
        }
        match extract_query_part(query) {
            Some((_, method, arguments)) => {
                if !bytes_equal(method.as_slice(), GetPeersQuery::method_name()) {
                    return Vec::new();
                }
                match GetPeersQuery::from_bencode(arguments) {
                    Some(get_peers) => {
                        proof {
                            lemma_id_from(get_peers.info_hash);
                        }
                        match self.peers.get(&get_peers.info_hash) {
                            Some(peers) => {
                                assert(self@.stored(get_peers.info_hash) == peers@);
                                let values = copy_addrs(peers);
                                sample_peers(values)
                            },
                            None => Vec::new(),
                        }
                    },
                    None => Vec::new(),
                }
            },
            None => Vec::new(),
        }
    }

    /// Handles a query from `ip`, whose text is `ip_text`, where `values` are the peers to
    /// offer.
    pub fn process_query(
        &mut self,
        query: &Object,
        ip: &SocketAddr,
        ip_text: &[u8],
        values: Vec<SocketAddr>,
        now: u128,
    ) -> (r: UdpOutcome)
        requires
            old(self).wf(),
        ensures
            final(self).wf(),
            (final(self)@, r@) == old(self)@.queried(query@, *ip, ip_text@, values@, now),
    {
        let (tid, method, arguments) = match extract_query_part(query) {
            Some(parts) => parts,
            None => {
                return refuse();
            },
        };
        if bytes_equal(method.as_slice(), PingQuery::method_name()) {
            let ping = match PingQuery::from_bencode(arguments) {
                Some(ping) => ping,
                None => {
                    return refuse();
                },
            };
            let reply = PingReply { id: self.id };
            self.node_seen(ping.id, ip, now);
            answer_with(tid.as_slice(), method.as_slice(), &reply)
        } else if bytes_equal(method.as_slice(), FindNodeQuery::method_name()) {
            let find_node = match FindNodeQuery::from_bencode(arguments) {
                Some(find_node) => find_node,
                None => {
                    return refuse();
                },
            };
            proof {
                lemma_id_from(find_node.target);
            }
            let nodes = self.table.find_node(find_node.target);
            let reply = FindNodeReply { id: self.id, nodes };
            self.node_seen(find_node.id, ip, now);
            answer_with(tid.as_slice(), method.as_slice(), &reply)
        } else if bytes_equal(method.as_slice(), GetPeersQuery::method_name()) {
            let get_peers = match GetPeersQuery::from_bencode(arguments) {
                Some(get_peers) => get_peers,
                None => {
                    return refuse();
                },
            };
            proof {
                lemma_id_from(get_peers.info_hash);
            }
            let nodes = self.table.find_node(get_peers.info_hash);
            let reply = GetPeersReply { id: self.id, nodes, token: copy_slice(ip_text), values };
            self.node_seen(get_peers.id, ip, now);
            answer_with(tid.as_slice(), method.as_slice(), &reply)
        } else if bytes_equal(method.as_slice(), AnnouncePeerQuery::method_name()) {
            let announce = match AnnouncePeerQuery::from_bencode(arguments) {
                Some(announce) => announce,
                None => {
                    return refuse();
                },
            };
            if !bytes_equal(announce.token.as_slice(), ip_text) {
                return answer_error(tid.as_slice(), 203, "Invalid token".to_owned());
            }
            let peer: SocketAddr = if announce.implied_port {
                *ip
            } else {
                with_port(ip, announce.port)
            };
            proof {
                lemma_id_from(announce.info_hash);
            }
            self.add_peer(announce.info_hash, peer);
            let reply = AnnouncePeerReply { id: self.id };
            self.node_seen(announce.id, ip, now);
            let mut r = answer_with(tid.as_slice(), method.as_slice(), &reply);
            r.announced = Some((announce.info_hash, peer));
            r
        } else {
            let mut msg: String = String::from_str("Unknown method: ");
            msg.append(string_from_utf8_lossy(method.as_slice()).as_str());
            answer_error(tid.as_slice(), 202, msg)
        }
    }

    /// Updates the table by a node that was heard of.
    fn node_seen(&mut self, id: NodeId, ip: &SocketAddr, now: u128)
        requires
            old(self).wf(),
        ensures
            final(self).wf(),
            final(self)@ == old(self)@.seen(id@, *ip, now),
    {
        proof {
            lemma_id_from(id);
        }
        let _ = self.table.update_node_at(id, ip, now);
        assert(self@ =~= old(self)@.seen(id@, *ip, now));
    }

    /// Takes in a peer of a torrent.
    fn add_peer(&mut self, hash: InfoHash, peer: SocketAddr)
        requires
            old(self).wf(),
        ensures
            final(self).wf(),
            final(self)@ == old(self)@.with_peer(hash, peer),
    {
        proof {
            lemma_id_eq();
        }
        let mut peers: Vec<SocketAddr> = match self.peers.remove(&hash) {
            Some(peers) => peers,
            None => Vec::new(),
        };
        assert(peers@ == old(self)@.stored(hash));
        add_addr(&mut peers, peer);
        self.peers.insert(hash, peers);
        assert(self@.peers =~= old(self)@.with_peer(hash, peer).peers);
        assert(self@ =~= old(self)@.with_peer(hash, peer));
    }

    /// Forgets the peers that were announced.
    pub fn clear_peers(&mut self)
        requires
            old(self).wf(),
        ensures
            final(self).wf(),
            final(self)@ == (Session { peers: Map::empty(), ..old(self)@ }),
    {
        self.peers.clear();
        assert(self@.peers =~= Map::empty());
        assert(self@ =~= (Session { peers: Map::empty(), ..old(self)@ }));
    }

    /// The nodes to ask first when the node starts: those of the table, and the routers at
    /// the given addresses, which are kept out of the table.
    pub fn bootstrap_queue(&mut self, routers: &Vec<SocketAddr>) -> (r: Vec<(NodeId, SocketAddr)>)
        requires
            old(self).wf(),
        ensures
            final(self).wf(),
            r@ == sort_by_distance(
                old(self)@.table.id@,
                old(self)@.table.nodes(),
            ) + router_nodes(routers@, old(self)@.ipv4),
            final(self)@ == (Session {
                table: Table {
                    routers: old(self)@.table.routers.union(routers@.to_set()),
                    ..old(self)@.table
                },
                ..old(self)@
            }),
    {
        let mut queue = self.table.iter();
        let ghost start = queue@;
        let ghost s = self@;
        let mut i: usize = 0;
        assert(start + router_nodes(routers@.take(0), s.ipv4) =~= start);
        assert(s.table.routers.union(routers@.take(0).to_set()) =~= s.table.routers);
        while i < routers.len()
            invariant
                i <= routers@.len(),
                self.wf(),
                queue@ == start + router_nodes(routers@.take(i as int), s.ipv4),
                self@ == (Session {
                    table: Table {
                        routers: s.table.routers.union(routers@.take(i as int).to_set()),
                        ..s.table
                    },
                    ..s
                }),
            decreases routers@.len() - i,
        {
            let ip: SocketAddr = routers[i];
            let ghost t = self@.table;
            let ghost before = routers@.take(i as int);
            let ghost after = routers@.take(i + 1);
            assert(after.drop_last() =~= before);
            assert(after.last() == ip);
            assert(after.to_set() =~= before.to_set().insert(ip)) by {
                assert(after =~= before.push(ip));
                assert forall|a: SocketAddr| after.contains(a) == (before.contains(a) || a
                    == ip) by {
                    if before.contains(a) {
                        let k = choose|k: int| 0 <= k < before.len() && before[k] == a;
                        assert(after[k] == a);
                    }
                    if a == ip {
                        assert(after[i as int] == a);
                    }
                }
            }
            self.table.add_router(&ip);
            assert(self@.table.routers =~= s.table.routers.union(after.to_set()));
            assert(self@ =~= (Session {
                table: Table { routers: s.table.routers.union(after.to_set()), ..s.table },
                ..s
            }));
            if self.is_native_addr(&ip) {
                let zero = NodeId::zero();
                proof {
                    lemma_id_from(zero);
                }
                queue.push((zero, ip));
            }
            assert(queue@ =~= start + router_nodes(after, s.ipv4));
            i += 1;
        }
        assert(routers@.take(i as int) =~= routers@);
        queue
    }

    /// The next random search that fills the table when the node starts, after `searches`
    /// of them: its target, the nodes to ask first, and how many searches there were then.
    /// There is none once the table is filled or there were enough.
    pub fn bootstrap_search(&self, searches: usize) -> (r: Option<
        (NodeId, Vec<(NodeId, SocketAddr)>, usize),
    >)
        requires
            self.wf(),
        ensures
            match r {
                Some((target, nodes, n)) => {
                    &&& n == searches + 1
                    &&& nodes@ == self@.table.closest(target)
                },
                None => true,
            },
            r is Some <==> 0 < self@.table.nodes().len() <= BOOTSTRAP_NODES && searches
                < BOOTSTRAP_SEARCHES,
    {
        let known: usize = self.table.nodes_len();
        if known == 0 || known > BOOTSTRAP_NODES || searches >= BOOTSTRAP_SEARCHES {
            return None;
        }
        let target = NodeId::rand();
        let nodes = self.table.find_node(target);
        Some((target, nodes, searches + 1))
    }

    /// Whether there are so few nodes that the node has to start again.
    pub fn needs_bootstrap(&self) -> (r: bool)
        requires
            self.wf(),
        ensures
            r == (self@.table.nodes().len() < MIN_NODES),
    {
        self.table.nodes_len() < MIN_NODES
    }

    /// The next node to refresh, and the query to send to it: a search for a random node.
    pub fn next_refresh(&mut self) -> (r: Option<(NodeId, SocketAddr, FindNodeQuery)>)
        requires
            old(self).wf(),
        ensures
            final(self).wf(),
            r matches Some((_, _, query)) ==> query.id == old(self)@.id,
            exists|now: u128, age: u128|
                #[trigger] refreshed(
                    old(self)@.table,
                    MIN_REFRESH_INTERVAL,
                    now,
                    aged(r, age),
                    final(self)@.table,
                ),
            final(self)@ == (Session { table: final(self)@.table, ..old(self)@ }),
    {
        let now: u128 = system_time();
        let node = self.table.next_refresh_node_at(MIN_REFRESH_INTERVAL, now);
        assert(refreshed(old(self)@.table, MIN_REFRESH_INTERVAL, now, node, self@.table));
        match node {
            Some((id, ip, age)) => {
                let target = NodeId::rand();
                let r = Some((id, ip, FindNodeQuery { id: self.id, target }));
                assert(aged(r, age) == node);
                r
            },
            None => {
                assert(aged(None, 0) == node);
                None
            },
        }
    }

    /// Identifiers to search for so that buckets that are less than half full are filled:
    /// one in the range of each such bucket.
    pub fn refresh_targets(&self) -> (r: Vec<NodeId>)
        requires
            self.wf(),
        ensures
            ({
                let small = self@.table.small_buckets(4, self@.table.buckets.len() as int);
                &&& r@.len() == small.len()
                &&& forall|k: int|
                    0 <= k < small.len() ==> shared_bits(self@.id, #[trigger] r@[k]) == small[k]
            }),
    {
        let indexes = self.table.less_node_buckets_indexes(4);
        proof {
            self.table.lemma_wf();
            lemma_small_buckets(self@.table, 4, self@.table.buckets.len() as int);
        }
        let mut targets: Vec<NodeId> = Vec::new();
        let mut k: usize = 0;
        while k < indexes.len()
            invariant
                k <= indexes@.len(),
                targets@.len() == k,
                forall|j: int| 0 <= j < indexes@.len() ==> #[trigger] indexes@[j] < 160,
                forall|j: int|
                    0 <= j < k ==> shared_bits(self.id, #[trigger] targets@[j]) == indexes@[j],
            decreases indexes@.len() - k,
        {
            targets.push(NodeId::rand_with_prefix(self.id, indexes[k]));
            k += 1;
        }
        targets
    }
}

/// The address with another port.
fn with_port(addr: &SocketAddr, port: u16) -> (r: SocketAddr)
    ensures
        r == addr.spec_with_port(port),
{
    match *addr {
        SocketAddr::V4 { ip, .. } => SocketAddr::V4 { ip, port },
        SocketAddr::V6 { ip, flowinfo, scope_id, .. } => SocketAddr::V6 {
            ip,
            port,
            flowinfo,
            scope_id,
        },
    }
}

/// A copy of addresses.
fn copy_addrs(addrs: &Vec<SocketAddr>) -> (r: Vec<SocketAddr>)
    ensures
        r@ == addrs@,
{
    let mut r: Vec<SocketAddr> = Vec::new();
    let mut i: usize = 0;
    while i < addrs.len()
        invariant
            i <= addrs@.len(),
            r@ == addrs@.take(i as int),
        decreases addrs@.len() - i,
    {
        r.push(addrs[i]);
        assert(addrs@.take(i + 1) =~= addrs@.take(i as int).push(addrs@[i as int]));
        i += 1;
    }
    assert(addrs@.take(i as int) =~= addrs@);
    r
}

/// The peers where they are few, else as many as a reply holds, picked at random.
fn sample_peers(peers: Vec<SocketAddr>) -> (r: Vec<SocketAddr>)
    ensures
        sample_of(peers@, r@),
{
    let mut values = peers;
    if values.len() > MAX_VALUES {
        shuffle_addrs(&mut values);
        let ghost order = values@;
        proof {
            broadcast use vstd::seq_lib::group_to_multiset_ensures;

            assert(order.len() == order.to_multiset().len());
            assert(peers@.len() == peers@.to_multiset().len());
        }
        values.truncate(MAX_VALUES);
        assert(values@ =~= order.take(MAX_VALUES as int));
    }
    values
}

/// A reply with peers carries its token.
pub proof fn law_reply_token(reply: PeersReply)
    ensures
        str_field(GetPeersReply::to_value(reply), text("token")) == Some(reply.token),
{
    lemma_keys();
    let d0 = id_dict(reply.id);
    let d1 = dict_insert(d0, text("token"), Value::Str(reply.token));
    let d2 = with_nodes(d1, reply.nodes);
    lemma_inserted(d0, text("token"), Value::Str(reply.token));
    lemma_inserted(d1, nodes_key(reply.nodes), Value::Str(nodes_bytes(reply.nodes)));
    lemma_inserted(d2, text("values"), Value::List(addr_values(reply.values)));
}

/// An announcement with the token that is given to its sender is accepted, and its peer is
/// among those offered from then on.
pub proof fn law_announce_accepted(
    s: Session,
    tid: Seq<u8>,
    query: Announcement,
    ip: SocketAddr,
    ip_text: Seq<u8>,
    now: u128,
)
    requires
        query.id.len() == 20,
        query.info_hash.len() == 20,
        query.token == ip_text,
    ensures
        ({
            let (after, outcome) = s.announced(
                tid,
                AnnouncePeerQuery::to_value(query),
                ip,
                ip_text,
                now,
            );
            let hash = id_from(query.info_hash);
            let peer = if query.implied_port {
                ip
            } else {
                ip.spec_with_port(query.port)
            };
            &&& outcome.handled
            &&& outcome.announced == Some((hash, peer))
            &&& outcome.reply == Some(
                encode(reply_value(tid, AnnouncePeerReply::to_value(s.id@))),
            )
            &&& after.stored(hash).contains(peer)
            &&& forall|p: SocketAddr| s.stored(hash).contains(p) ==> after.stored(hash).contains(p)
        }),
{
    law_announce_peer_round_trip(query);
    let hash = id_from(query.info_hash);
    let peer = if query.implied_port {
        ip
    } else {
        ip.spec_with_port(query.port)
    };
    law_insert_addr(s.stored(hash), peer);
}

/// An announcement with another token is answered with an error and changes nothing.
pub proof fn law_announce_refused(
    s: Session,
    tid: Seq<u8>,
    query: Announcement,
    ip: SocketAddr,
    ip_text: Seq<u8>,
    now: u128,
)
    requires
        query.id.len() == 20,
        query.info_hash.len() == 20,
        query.token != ip_text,
    ensures
        s.announced(tid, AnnouncePeerQuery::to_value(query), ip, ip_text, now) == (
            s,
            error_answer(tid, 203, "Invalid token"@),
        ),
{
    law_announce_peer_round_trip(query);
}

/// A packet that is none for the DHT changes nothing, and is not answered.
pub proof fn law_refused_unchanged(
    s: Session,
    bytes: Seq<u8>,
    ip: SocketAddr,
    ip_text: Seq<u8>,
    values: Seq<SocketAddr>,
    now: u128,
)
    requires
        !s.received(bytes, ip, ip_text, values, now).1.handled,
    ensures
        s.received(bytes, ip, ip_text, values, now) == (s, refused()),
{
}

/// The peers that are offered are peers that are known, and not more than a reply holds.
pub proof fn law_sample(stored: Seq<SocketAddr>, values: Seq<SocketAddr>)
    requires
        sample_of(stored, values),
    ensures
        values.len() == (if stored.len() <= 8 {
            stored.len()
        } else {
            8
        }),
        stored.len() <= 8 ==> values == stored,
        stored.no_duplicates() ==> values.no_duplicates(),
        forall|i: int| 0 <= i < values.len() ==> stored.contains(#[trigger] values[i]),
{
    if stored.len() > MAX_VALUES {
        broadcast use vstd::seq_lib::group_to_multiset_ensures;

        let order = choose|order: Seq<SocketAddr>| #[trigger]
            order.to_multiset() == stored.to_multiset() && values == order.take(MAX_VALUES as int);
        assert(order.len() == order.to_multiset().len());
        assert(stored.len() == stored.to_multiset().len());
        if stored.no_duplicates() {
            stored.lemma_multiset_has_no_duplicates();
            order.lemma_multiset_has_no_duplicates_conv();
            assert forall|i: int, j: int|
                0 <= i < values.len() && 0 <= j < values.len() && i != j implies values[i]
                != values[j] by {
                assert(values[i] == order[i] && values[j] == order[j]);
            }
        }
        assert forall|i: int| 0 <= i < values.len() implies stored.contains(
            #[trigger] values[i],
        ) by {
            assert(values[i] == order[i]);
            assert(order.contains(order[i]));
            assert(order.to_multiset().contains(order[i]));
            assert(stored.to_multiset().contains(order[i]));
        }
    }
}

/// Whether a message is a query of a method, with a transaction id and arguments.
pub open spec fn asks(v: Value, tid: Seq<u8>, method: Seq<u8>, arguments: Value) -> bool {
    &&& str_field(v, text("t")) == Some(tid)
    &&& str_field(v, text("y")) == Some(text("q"))
    &&& str_field(v, text("q")) == Some(method)
    &&& field(v, text("a")) == Some(arguments)
}

/// Whether a packet is the reply to a transaction, with what it carries.
pub open spec fn answers(packet: Option<Seq<u8>>, tid: Seq<u8>, carried: Value) -> bool {
    exists|v: Value|
        packet == Some(#[trigger] encode(v)) && str_field(v, text("t")) == Some(tid) && str_field(
            v,
            text("y"),
        ) == Some(text("r")) && field(v, text("r")) == Some(carried)
}

/// Whether nodes are those of a table that are nearest to a target: as many as there are up
/// to eight, each a node of the table, sorted by their distance, and no node of the table that
/// is not among them is nearer than one that is.
pub open spec fn nearest_in(t: Table, target: Seq<u8>, nodes: Seq<(NodeId, SocketAddr)>) -> bool {
    &&& nodes.len() == (if t.nodes().len() <= 8 {
        t.nodes().len()
    } else {
        8
    })
    &&& forall|x: int| 0 <= x < nodes.len() ==> is_node(t, #[trigger] nodes[x])
    &&& forall|x: int, y: int|
        0 <= x < y < nodes.len() ==> !distance_less(
            target,
            (#[trigger] nodes[y]).0@,
            (#[trigger] nodes[x]).0@,
        )
    &&& forall|p: (NodeId, SocketAddr), x: int|
        is_node(t, p) && !nodes.contains(p) && 0 <= x < nodes.len() ==> !(#[trigger] distance_less(
            target,
            p.0@,
            nodes[x].0@,
        ))
}

/// Whether a value carries nodes: their compact forms, under a key by their family.
pub open spec fn carries_nodes(v: Value, nodes: Seq<(NodeId, SocketAddr)>) -> bool {
    str_field(
        v,
        if nodes.len() > 0 && nodes[0].1 is V6 {
            text("nodes6")
        } else {
            text("nodes")
        },
    ) == Some(nodes_bytes(node_views(nodes)))
}

/// What is sent back to a query is a reply to its transaction.
proof fn lemma_answers(tid: Seq<u8>, carried: Value)
    ensures
        answers(Some(encode(reply_value(tid, carried))), tid, carried),
{
    law_reply_fields(tid, carried);
    let v = reply_value(tid, carried);
    assert(reply_of(v) == Some(carried));
    assert(Some(encode(v)) == Some(encode(reply_value(tid, carried))));
}

/// A packet that holds a query is handled as that query, and the given parts are its parts.
proof fn lemma_asked(
    s: Session,
    bytes: Seq<u8>,
    v: Value,
    rest: Seq<u8>,
    tid: Seq<u8>,
    method: Seq<u8>,
    arguments: Value,
)
    requires
        decode(bytes) == Some((v, rest)),
        asks(v, tid, method, arguments),
    ensures
        incoming(s.pending, bytes) == Incoming::Query(v),
        query_part(v) == Some((tid, method, arguments)),
{
}

/// The methods that are answered differ.
proof fn lemma_methods()
    ensures
        text("ping") != text("find_node"),
        text("ping") != text("get_peers"),
        text("ping") != text("announce_peer"),
        text("find_node") != text("get_peers"),
        text("find_node") != text("announce_peer"),
        text("get_peers") != text("announce_peer"),
{
    reveal_strlit("ping");
    reveal_strlit("find_node");
    reveal_strlit("get_peers");
    reveal_strlit("announce_peer");
    assert("ping".is_ascii());
    assert("find_node".is_ascii());
    assert("get_peers".is_ascii());
    assert("announce_peer".is_ascii());
    assert(text("ping").len() == 4);
    assert(text("find_node").len() == 9);
    assert(text("get_peers").len() == 9);
    assert(text("announce_peer").len() == 13);
    assert(text("find_node")[0] == 'f' as u8);
    assert(text("get_peers")[0] == 'g' as u8);
}

/// A ping is answered with the own identifier, and the sender is then seen at its address.
pub proof fn law_ping_answered(
    s: Session,
    bytes: Seq<u8>,
    v: Value,
    rest: Seq<u8>,
    tid: Seq<u8>,
    arguments: Value,
    id: NodeId,
    ip: SocketAddr,
    ip_text: Seq<u8>,
    values: Seq<SocketAddr>,
    now: u128,
) -> (reply: Value)
    requires
        decode(bytes) == Some((v, rest)),
        asks(v, tid, text("ping"), arguments),
        str_field(arguments, text("id")) == Some(id@),
    ensures
        ({
            let (after, outcome) = s.received(bytes, ip, ip_text, values, now);
            &&& outcome.handled
            &&& outcome.queried == Some(text("ping"))
            &&& outcome.announced is None
            &&& outcome.delivered is None
            &&& answers(outcome.reply, tid, reply)
            &&& str_field(reply, text("id")) == Some(s.id@)
            &&& after == (Session { table: s.table.update(id, ip, now), ..s })
        }),
{
    let reply = PingReply::to_value(s.id@);
    lemma_asked(s, bytes, v, rest, tid, text("ping"), arguments);
    lemma_methods();
    lemma_id_from(id);
    lemma_answers(tid, reply);
    lemma_inserted(crate::krpc::messages::no_entries(), text("id"), Value::Str(s.id@));
    reply
}

/// A search for a node is answered with the own identifier and the nodes of the table that
/// are nearest to the node that is searched for; the sender is then seen at its address.
pub proof fn law_find_node_answered(
    s: Session,
    bytes: Seq<u8>,
    v: Value,
    rest: Seq<u8>,
    tid: Seq<u8>,
    arguments: Value,
    id: NodeId,
    target: NodeId,
    ip: SocketAddr,
    ip_text: Seq<u8>,
    values: Seq<SocketAddr>,
    now: u128,
) -> (r: (Value, Seq<(NodeId, SocketAddr)>))
    requires
        decode(bytes) == Some((v, rest)),
        asks(v, tid, text("find_node"), arguments),
        str_field(arguments, text("id")) == Some(id@),
        str_field(arguments, text("target")) == Some(target@),
    ensures
        ({
            let (after, outcome) = s.received(bytes, ip, ip_text, values, now);
            let (reply, nodes) = r;
            &&& outcome.handled
            &&& outcome.queried == Some(text("find_node"))
            &&& outcome.announced is None
            &&& outcome.delivered is None
            &&& answers(outcome.reply, tid, reply)
            &&& str_field(reply, text("id")) == Some(s.id@)
            &&& carries_nodes(reply, nodes)
            &&& nearest_in(s.table, target@, nodes)
            &&& after == (Session { table: s.table.update(id, ip, now), ..s })
        }),
{
    let nodes = s.table.closest(target);
    let reply = FindNodeReply::to_value((s.id@, node_views(nodes)));
    lemma_asked(s, bytes, v, rest, tid, text("find_node"), arguments);
    lemma_methods();
    lemma_id_from(id);
    lemma_id_from(target);
    lemma_answers(tid, reply);
    law_closest(s.table, target);
    law_reply_keys(
        s.id@,
        node_views(nodes),
        PeersReply { id: s.id@, token: seq![], nodes: seq![], values: seq![] },
        no_samples(),
    );
    (reply, nodes)
}

/// No samples.
spec fn no_samples() -> Samples {
    Samples { id: seq![], interval: 0, nodes: seq![], num: 0, info_hashes: seq![] }
}

/// A search for peers is answered with the own identifier, the nodes of the table that are
/// nearest to the torrent, as the token the text of the sender's address, and peers of the
/// torrent that were announced: all of them, or eight where there are more. The sender is
/// then seen at its address.
pub proof fn law_get_peers_answered(
    s: Session,
    bytes: Seq<u8>,
    v: Value,
    rest: Seq<u8>,
    tid: Seq<u8>,
    arguments: Value,
    id: NodeId,
    hash: NodeId,
    ip: SocketAddr,
    ip_text: Seq<u8>,
    values: Seq<SocketAddr>,
    now: u128,
) -> (r: (Value, Seq<(NodeId, SocketAddr)>))
    requires
        decode(bytes) == Some((v, rest)),
        asks(v, tid, text("get_peers"), arguments),
        str_field(arguments, text("id")) == Some(id@),
        str_field(arguments, text("info_hash")) == Some(hash@),
        s.may_offer(bytes, values),
    ensures
        ({
            let (after, outcome) = s.received(bytes, ip, ip_text, values, now);
            let (reply, nodes) = r;
            let stored = s.stored(hash);
            &&& outcome.handled
            &&& outcome.queried == Some(text("get_peers"))
            &&& outcome.announced is None
            &&& outcome.delivered is None
            &&& answers(outcome.reply, tid, reply)
            &&& str_field(reply, text("id")) == Some(s.id@)
            &&& str_field(reply, text("token")) == Some(ip_text)
            &&& carries_nodes(reply, nodes)
            &&& nearest_in(s.table, hash@, nodes)
            &&& match field(reply, text("values")) {
                Some(list) => values.len() > 0 && list == Value::List(
                    Seq::new(values.len(), |i: int| Value::Str(compact_ip(values[i]))),
                ),
                None => values.len() == 0,
            }
            &&& values.len() == (if stored.len() <= 8 {
                stored.len()
            } else {
                8
            })
            &&& forall|i: int| 0 <= i < values.len() ==> stored.contains(#[trigger] values[i])
            &&& after == (Session { table: s.table.update(id, ip, now), ..s })
        }),
{
    let nodes = s.table.closest(hash);
    let message = PeersReply { id: s.id@, token: ip_text, nodes: node_views(nodes), values };
    let reply = GetPeersReply::to_value(message);
    lemma_asked(s, bytes, v, rest, tid, text("get_peers"), arguments);
    lemma_methods();
    lemma_id_from(id);
    lemma_id_from(hash);
    lemma_answers(tid, reply);
    law_closest(s.table, hash);
    law_reply_keys(s.id@, seq![], message, no_samples());
    law_sample(s.stored(hash), values);
    if values.len() > 0 {
        let list = Seq::new(values.len(), |i: int| Value::Str(compact_ip(values[i])));
        let given = field(reply, text("values"))->Some_0;
        assert(given->List_0 =~= list);
    }
    (reply, nodes)
}

/// An announcement with the text of the sender's address as its token is accepted: from then
/// on its peer, at the sender's IP address and the port that is said, or the sender's own
/// where that is said, is one of the torrent, with those that were; the peers of other
/// torrents are as they were. The sender is then seen at its address.
pub proof fn law_announce_answered(
    s: Session,
    bytes: Seq<u8>,
    v: Value,
    rest: Seq<u8>,
    tid: Seq<u8>,
    arguments: Value,
    id: NodeId,
    hash: NodeId,
    port: u16,
    implied: bool,
    other: InfoHash,
    ip: SocketAddr,
    ip_text: Seq<u8>,
    values: Seq<SocketAddr>,
    now: u128,
) -> (r: (Value, SocketAddr))
    requires
        decode(bytes) == Some((v, rest)),
        asks(v, tid, text("announce_peer"), arguments),
        str_field(arguments, text("id")) == Some(id@),
        str_field(arguments, text("info_hash")) == Some(hash@),
        str_field(arguments, text("token")) == Some(ip_text),
        int_field(arguments, text("port")) == Some(port as i64),
        if implied {
            field(arguments, text("implied_port")) == Some(Value::Int(1))
        } else {
            field(arguments, text("implied_port")) is None || field(
                arguments,
                text("implied_port"),
            ) == Some(Value::Int(0))
        },
    ensures
        ({
            let (after, outcome) = s.received(bytes, ip, ip_text, values, now);
            let (reply, peer) = r;
            &&& outcome.handled
            &&& outcome.queried == Some(text("announce_peer"))
            &&& outcome.announced == Some((hash, peer))
            &&& outcome.delivered is None
            &&& answers(outcome.reply, tid, reply)
            &&& str_field(reply, text("id")) == Some(s.id@)
            &&& peer.spec_ip() == ip.spec_ip()
            &&& peer.spec_port() == (if implied {
                ip.spec_port()
            } else {
                port
            })
            &&& forall|p: SocketAddr| #[trigger]
                after.stored(hash).contains(p) <==> p == peer || s.stored(hash).contains(p)
            &&& other != hash ==> after.stored(other) == s.stored(other)
            &&& after == (Session {
                table: s.table.update(id, ip, now),
                peers: after.peers,
                ..s
            })
        }),
{
    let peer = if implied {
        ip
    } else {
        ip.spec_with_port(port)
    };
    let reply = AnnouncePeerReply::to_value(s.id@);
    lemma_asked(s, bytes, v, rest, tid, text("announce_peer"), arguments);
    lemma_methods();
    lemma_id_from(id);
    lemma_id_from(hash);
    lemma_answers(tid, reply);
    lemma_inserted(crate::krpc::messages::no_entries(), text("id"), Value::Str(s.id@));
    law_insert_addr(s.stored(hash), peer);
    (reply, peer)
}

/// An announcement with another token is answered with error 203, and a query of another
/// method with error 202; nothing changes.
pub proof fn law_errors_answered(
    s: Session,
    bytes: Seq<u8>,
    v: Value,
    rest: Seq<u8>,
    tid: Seq<u8>,
    method: Seq<u8>,
    arguments: Value,
    ip: SocketAddr,
    ip_text: Seq<u8>,
    values: Seq<SocketAddr>,
    now: u128,
)
    requires
        decode(bytes) == Some((v, rest)),
        asks(v, tid, method, arguments),
    ensures
        ({
            let (after, outcome) = s.received(bytes, ip, ip_text, values, now);
            let refusal = |code: i64, message: Seq<char>|
                answers(
                    outcome.reply,
                    tid,
                    Value::List(seq![Value::Int(code), Value::Str(encode_utf8(message))]),
                ) && outcome.handled && outcome.queried is None && outcome.announced is None
                    && outcome.delivered is None && after == s;
            &&& method == text("announce_peer") && AnnouncePeerQuery::of_value(
                arguments,
            ) is Some && str_field(arguments, text("token")) != Some(ip_text) ==> refusal(
                203,
                "Invalid token"@,
            )
            &&& method != text("ping") && method != text("find_node") && method != text("get_peers")
                && method != text("announce_peer") ==> refusal(
                202,
                "Unknown method: "@ + lossy_text(method),
            )
        }),
{
    lemma_asked(s, bytes, v, rest, tid, method, arguments);
    lemma_methods();
    lemma_answers(tid, ErrorReply::to_value((203, "Invalid token"@)));
    lemma_answers(tid, ErrorReply::to_value((202, "Unknown method: "@ + lossy_text(method))));
}

/// The reply to a query of this node is handed on to it, once, and changes nothing else; a
/// packet that is none, or to no query of this node, is not handled and changes nothing.
pub proof fn law_reply_handed_on(
    s: Session,
    bytes: Seq<u8>,
    ip: SocketAddr,
    ip_text: Seq<u8>,
    values: Seq<SocketAddr>,
    now: u128,
)
    requires
        match decode(bytes) {
            Some((v, _)) => str_field(v, text("y")) != Some(text("q")),
            None => true,
        },
    ensures
        ({
            let (after, outcome) = s.received(bytes, ip, ip_text, values, now);
            &&& outcome.reply is None
            &&& outcome.announced is None
            &&& outcome.queried is None
            &&& outcome.handled == (outcome.delivered is Some)
            &&& match outcome.delivered {
                Some((tid, message)) => {
                    &&& s.pending.contains(tid)
                    &&& decode(bytes) matches Some((v, _)) && v == message
                    &&& str_field(message, text("t")) matches Some(t) && t.len() == 2
                        && big_endian(t) == tid
                    &&& after == (Session { pending: s.pending.remove(tid), ..s })
                },
                None => {
                    &&& after == s
                    &&& forall|tid: u16| #[trigger]
                        s.pending.contains(tid) ==> (decode(bytes) matches Some((v, _)) ==> (
                        str_field(v, text("t")) matches Some(t) ==> t.len() != 2 || big_endian(t)
                            != tid))
                },
            }
        }),
{
    if let Some((v, _)) = decode(bytes) {
        if let Some(t) = str_field(v, text("t")) {
            if t.len() == 2 {
                lemma_big_endian_2(t);
            }
        }
    }
}

/// A node that replied to a query is in the table, good and seen just now, where it was
/// there or where there is room for it; the nodes at other addresses are as they were.
pub proof fn law_call_replied(s: Session, id: NodeId, ip: SocketAddr, now: u128, node: Node)
    requires
        s.table.wf(),
        exists|i: int| 0 <= i < 20 && #[trigger] id@[i] != 0u8,
    ensures
        ({
            let t = s.table;
            let after = s.called(CallOutcome::Replied, id, ip, now);
            let room = is_node(t, (id, ip)) || (!t.has_ip(ip)
                && t.buckets[t.index_of(id)].nodes.len() < 8 && id != t.id
                && !t.routers.contains(ip));
            &&& after == (Session { table: after.table, ..s })
            &&& after.table.wf()
            &&& after.table.holds(node) <==> if room {
                node == (Node { id, ip, last_seen: now, status: NodeStatus::Good }) || (t.holds(
                    node,
                ) && node.ip != ip)
            } else {
                t.holds(node)
            }
        }),
{
    law_update_result(s.table, id, ip);
    law_update(s.table, id, ip, now, node);
    let i = choose|i: int| 0 <= i < 20 && #[trigger] id@[i] != 0u8;
    assert(Seq::new(20, |k: int| 0u8)[i] == 0u8);
    lemma_shared_bits_bound(s.table.id, id);
    assert(s.table.buckets[s.table.index_of(id)].nodes.len() <= KBUCKET_SIZE);
}

/// Where a query timed out or failed, no node is new in the table: one with the identifier
/// that was asked is thought worse of by a step, or is gone, and all others are as they were.
pub proof fn law_call_failed(
    s: Session,
    outcome: CallOutcome,
    id: NodeId,
    ip: SocketAddr,
    now: u128,
) -> (quiet: Option<Node>)
    requires
        s.table.wf(),
        outcome == CallOutcome::TimedOut || outcome == CallOutcome::Failed,
        exists|i: int| 0 <= i < 20 && #[trigger] id@[i] != 0u8,
    ensures
        ({
            let t = s.table;
            let after = s.called(outcome, id, ip, now);
            &&& after == (Session { table: after.table, ..s })
            &&& after.table.wf()
            &&& match quiet {
                Some(q) => {
                    &&& q.id == id
                    &&& t.holds(q)
                    &&& forall|node: Node| #[trigger]
                        after.table.holds(node) <==> (worse(q) == Some(node) || (t.holds(node)
                            && node.ip != q.ip))
                },
                None => {
                    &&& after == s
                    &&& forall|node: Node| #[trigger] t.holds(node) ==> node.id != id
                },
            }
        }),
{
    let i = choose|i: int| 0 <= i < 20 && #[trigger] id@[i] != 0u8;
    assert(Seq::new(20, |k: int| 0u8)[i] == 0u8);
    law_timeout(s.table, id)
}

/// A query to a node whose identifier is not known, which is written as zeros, leaves the
/// table as it is, however it ended.
pub proof fn law_call_unknown(
    s: Session,
    outcome: CallOutcome,
    id: NodeId,
    ip: SocketAddr,
    now: u128,
)
    requires
        forall|i: int| 0 <= i < 20 ==> id@[i] == 0u8,
    ensures
        s.called(outcome, id, ip, now) == s,
{
    assert(id@ =~= Seq::new(20, |i: int| 0u8));
}

/// A query is tried a second time where it timed out the first time, and in no other case.
pub proof fn law_retries(tries: usize, outcome: CallOutcome)
    ensures
        Session::retries(tries, outcome) <==> tries == 0 && outcome == CallOutcome::TimedOut,
{
}

/// A node that replied in a search is in the table, good and seen just now, unless it is
/// refused; all other nodes are as they were, and nothing else changes.
pub proof fn law_searched_node_added(
    s: Session,
    id: NodeId,
    ip: SocketAddr,
    now: u128,
    node: Node,
)
    requires
        s.table.wf(),
    ensures
        ({
            let t = s.table;
            let after = s.added(id, ip, now);
            let split = t.split_for(id, ip);
            let zero = forall|i: int| 0 <= i < 20 ==> id@[i] == 0u8;
            let full = split.buckets[split.index_of(id)].nodes.len() == 8 && (split.index_of(id)
                != split.buckets.len() - 1 || split.buckets.len() == 160);
            let taken = !zero && (is_node(t, (id, ip)) || (!t.has_ip(ip) && !full && id != t.id
                && !t.routers.contains(ip)));
            &&& after == (Session { table: after.table, ..s })
            &&& after.table.wf()
            &&& after.table.holds(node) <==> if taken {
                node == (Node { id, ip, last_seen: now, status: NodeStatus::Good }) || (t.holds(
                    node,
                ) && node.ip != ip)
            } else {
                t.holds(node)
            }
        }),
{
    law_add(s.table, id, ip, now, node);
}

/// The routers that are asked first are those whose addresses are of the session's family,
/// each with an identifier of zeros.
pub proof fn law_router_nodes(addrs: Seq<SocketAddr>, ipv4: bool, node: (NodeId, SocketAddr))
    ensures
        router_nodes(addrs, ipv4).contains(node) <==> addrs.contains(node.1) && node.1 is V4 == ipv4
            && forall|i: int| 0 <= i < 20 ==> node.0@[i] == 0u8,
    decreases addrs.len(),
{
    let zero = id_from(Seq::new(20, |i: int| 0u8));
    lemma_zero_id();
    if addrs.len() > 0 {
        let front = addrs.drop_last();
        law_router_nodes(front, ipv4, node);
        let before = router_nodes(front, ipv4);
        let r = router_nodes(addrs, ipv4);
        if before.contains(node) {
            let i = choose|i: int| 0 <= i < before.len() && before[i] == node;
            assert(r[i] == node);
        }
        if r.contains(node) {
            let i = choose|i: int| 0 <= i < r.len() && r[i] == node;
            if i < before.len() {
                assert(before[i] == node);
            }
        }
        if front.contains(node.1) {
            let i = choose|i: int| 0 <= i < front.len() && front[i] == node.1;
            assert(addrs[i] == node.1);
        }
        if addrs.contains(node.1) && node.1 != addrs.last() {
            let i = choose|i: int| 0 <= i < addrs.len() && addrs[i] == node.1;
            assert(front[i] == node.1);
        }
        assert(addrs[addrs.len() - 1] == addrs.last());
        if addrs.last() is V4 == ipv4 {
            assert(r[before.len() as int] == (zero, addrs.last()));
        }
        if forall|i: int| 0 <= i < 20 ==> node.0@[i] == 0u8 {
            assert(node.0@ =~= zero@);
            lemma_same_bytes(node.0, zero);
        }
    }
}

/// There is an identifier of zeros.
proof fn lemma_zero_id()
    ensures
        id_from(Seq::new(20, |i: int| 0u8))@ == Seq::new(20, |i: int| 0u8),
{
    let zero = NodeId { data: [0, 0, 0, 0, 0, 0, 0, 0, 0, 0, 0, 0, 0, 0, 0, 0, 0, 0, 0, 0] };
    assert(zero@ =~= Seq::new(20, |i: int| 0u8));
    lemma_id_from(zero);
}

} // verus!
