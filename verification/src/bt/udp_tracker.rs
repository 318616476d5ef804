//! Trackers over UDP.

pub use super::tracker::{AnnounceInfo, Event, Failure, ScrapedItem, TrackerError};

use super::tracker::event_code;
use crate::bytes::{
    append_slice, big_endian, big_endian_bytes, copy_slice, lemma_big_endian_bytes_len,
    lemma_big_endian_round_trip, push_u16, push_u32, push_u64, read_u32, read_u64, sub_slice,
};
use crate::kad::addr::SocketAddr;
use crate::kad::compact::{compact_ip, law_compact_round_trip, lemma_compact_len, parse_ip, parsed_ip};
use crate::kad::nodeid::InfoHash;
use crate::random::random_u32;
use crate::strings::{lossy_text, string_from_utf8_lossy};
use std::collections::HashMap;
use vstd::prelude::*;

verus! {

/// How long a connection id can be used, in nanoseconds.
pub const CONNECTION_EXPIRY: u64 = 60_000_000_000;

/// What stands in place of a connection id in a request for one.
pub const PROTOCOL_ID: u64 = 0x41727101980;

/// For how many torrents a request can ask.
pub const MAX_SCRAPE: usize = 74;

/// How long a reply is waited for, in nanoseconds.
pub const MAX_TIMEOUT: u64 = 10_000_000_000;

/// What a request is for.
#[derive(Debug, Clone, Copy, PartialEq, Eq, Structural)]
pub enum Action {
    Connect,
    Announce,
    Scrape,
    Error,
}

/// The number by which an action is known.
pub open spec fn action_code(action: Action) -> u32 {
    match action {
        Action::Connect => 0,
        Action::Announce => 1,
        Action::Scrape => 2,
        Action::Error => 3,
    }
}

impl Action {
    /// The number by which the action is known.
    pub fn code(&self) -> (r: u32)
        ensures
            r == action_code(*self),
    {
        match *self {
            Action::Connect => 0,
            Action::Announce => 1,
            Action::Scrape => 2,
            Action::Error => 3,
        }
    }
}

/// What a tracker answers to an announcement.
#[derive(Debug, Clone)]
pub struct AnnounceResult {
    pub interval: u32,
    pub seeders: u32,
    pub leechers: u32,
    pub peers: Vec<SocketAddr>,
}

/// What came of a packet.
#[derive(Debug)]
pub enum UdpProcess {
    /// It is not from this tracker.
    NotOurs,
    /// It is from this tracker, but no request waits for it.
    Unknown,
    /// It answers the request with that transaction id.
    Reply(u32, Result<Vec<u8>, TrackerError>),
}

/// What to do for a connection id.
#[derive(Debug, Clone, Copy, PartialEq, Eq, Structural)]
pub enum ConnectionStep {
    /// Use that one.
    Use(u64),
    /// Ask the tracker for one.
    Connect,
    /// Wait: the tracker was asked for one.
    Wait,
}

/// A request: the connection, what it is for, the transaction, and the data.
pub open spec fn request_bytes(
    connection_id: u64,
    action: Action,
    tid: u32,
    data: Seq<u8>,
) -> Seq<u8> {
    big_endian_bytes(connection_id as nat, 8) + big_endian_bytes(action_code(action) as nat, 4)
        + big_endian_bytes(tid as nat, 4) + data
}

/// What an announcement holds.
pub open spec fn announce_bytes(info: AnnounceInfo, key: u32) -> Seq<u8> {
    info.hash@ + info.peer_id@ + big_endian_bytes(info.downloaded as nat, 8) + big_endian_bytes(
        info.left as nat,
        8,
    ) + big_endian_bytes(info.uploaded as nat, 8) + big_endian_bytes(
        event_code(info.event) as nat,
        4,
    ) + big_endian_bytes(0, 4) + big_endian_bytes(key as nat, 4) + big_endian_bytes(
        (match info.num_want {
            Some(n) => n,
            None => 0xffff_ffff,
        }) as nat,
        4,
    ) + big_endian_bytes(info.port as nat, 2)
}

/// The torrents that a request asks for, one behind the other.
pub open spec fn hashes_bytes(hashes: Seq<InfoHash>) -> Seq<u8>
    decreases hashes.len(),
{
    if hashes.len() == 0 {
        seq![]
    } else {
        hashes_bytes(hashes.drop_last()) + hashes.last()@
    }
}

/// The number that starts at a place.
pub open spec fn u32_at(s: Seq<u8>, at: int) -> u32 {
    big_endian(s.subrange(at, at + 4)) as u32
}

/// What comes of the reply to a request.
pub open spec fn reply_view(action: Action, code: u32, data: Seq<u8>) -> Result<Seq<u8>, Failure> {
    if code == action_code(Action::Error) {
        Err(Failure::Error(lossy_text(data)))
    } else if code != action_code(action) {
        Err(Failure::InvalidReply)
    } else {
        Ok(data)
    }
}

/// What a result is.
pub open spec fn result_view(r: Result<Vec<u8>, TrackerError>) -> Result<Seq<u8>, Failure> {
    match r {
        Ok(data) => Ok(data@),
        Err(e) => Err(e@),
    }
}

/// What comes of the reply to a request that has that purpose.
pub fn reply_data(action: Action, code: u32, data: &[u8]) -> (r: Result<Vec<u8>, TrackerError>)
    ensures
        result_view(r) == reply_view(action, code, data@),
{
    if code == Action::Error.code() {
        return Err(TrackerError::Error(string_from_utf8_lossy(data)));
    }
    if code != action.code() {
        return Err(TrackerError::InvalidReply);
    }
    Ok(copy_slice(data))
}

/// The connection id in a reply.
pub fn connect_reply(bytes: &[u8]) -> (r: Result<u64, TrackerError>)
    ensures
        match r {
            Ok(id) => bytes@.len() == 8 && id == big_endian(bytes@),
            Err(e) => bytes@.len() != 8 && e == TrackerError::InvalidReply,
        },
{
    if bytes.len() != 8 {
        return Err(TrackerError::InvalidReply);
    }
    assert(bytes@.subrange(0, 8) =~= bytes@);
    Ok(read_u64(bytes, 0))
}

/// How many bytes each peer in a reply has: eighteen, with an IPv6 address, where the
/// tracker's own address is one and the bytes come out even, else six, with an IPv4
/// address. There are no peers where neither comes out even.
pub open spec fn peer_len(s: Seq<u8>, ipv4: bool) -> Option<int> {
    if !ipv4 && s.len() % 18 == 0 {
        Some(18)
    } else if s.len() % 6 == 0 {
        Some(6)
    } else {
        None
    }
}

/// The peers of which each has that many bytes, six or eighteen.
pub open spec fn peers_of_len(s: Seq<u8>, len: int) -> Seq<SocketAddr> {
    if len == 18 {
        Seq::new(s.len() / 18, |i: int| parsed_ip(s.subrange(18 * i, 18 * i + 18))->Some_0)
    } else {
        Seq::new(s.len() / 6, |i: int| parsed_ip(s.subrange(6 * i, 6 * i + 6))->Some_0)
    }
}

/// The peers in a reply.
pub open spec fn peers_of(s: Seq<u8>, ipv4: bool) -> Option<Seq<SocketAddr>> {
    match peer_len(s, ipv4) {
        Some(len) => Some(peers_of_len(s, len)),
        None => None,
    }
}

/// What the reply to an announcement says: the interval, the leechers, the seeders and
/// the peers, to a tracker with an address of one family or the other.
pub fn announce_reply(bytes: &[u8], addr: &SocketAddr) -> (r: Result<AnnounceResult, TrackerError>)
    ensures
        match r {
            Ok(result) => {
                &&& bytes@.len() >= 12
                &&& result.interval == u32_at(bytes@, 0)
                &&& result.leechers == u32_at(bytes@, 4)
                &&& result.seeders == u32_at(bytes@, 8)
                &&& peers_of(bytes@.skip(12), addr is V4) == Some(result.peers@)
            },
            Err(e) => e == TrackerError::InvalidReply && (bytes@.len() < 12 || peers_of(
                bytes@.skip(12),
                addr is V4,
            ) is None),
        },
{
    if bytes.len() < 12 {
        return Err(TrackerError::InvalidReply);
    }
    let interval: u32 = read_u32(bytes, 0);
    let leechers: u32 = read_u32(bytes, 4);
    let seeders: u32 = read_u32(bytes, 8);
    let left: &[u8] = sub_slice(bytes, 12, bytes.len());
    assert(left@ =~= bytes@.skip(12));
    let len: usize = if !addr.is_ipv4() && left.len() % 18 == 0 {
        18
    } else if left.len() % 6 == 0 {
        6
    } else {
        return Err(TrackerError::InvalidReply);
    };
    let ghost all = peers_of_len(left@, len as int);
    let mut peers: Vec<SocketAddr> = Vec::new();
    let mut at: usize = 0;
    while at < left.len()
        invariant
            at <= left@.len(),
            len == 18 && left@.len() % 18 == 0 && at == 18 * peers@.len() || len == 6 && left@.len()
                % 6 == 0 && at == 6 * peers@.len(),
            all == peers_of_len(left@, len as int),
            forall|i: int| 0 <= i < peers@.len() ==> #[trigger] peers@[i] == all[i],
        decreases left@.len() - at,
    {
        match parse_ip(sub_slice(left, at, at + len)) {
            Some(peer) => {
                peers.push(peer);
            },
            None => {
                return Err(TrackerError::InvalidReply);
            },
        }
        at += len;
    }
    assert(peers@ =~= all);
    Ok(AnnounceResult { interval, seeders, leechers, peers })
}

/// What the reply on torrents says of them: twelve bytes each.
pub open spec fn scraped_of(s: Seq<u8>) -> Seq<ScrapedItem> {
    Seq::new(
        s.len() / 12,
        |i: int|
            ScrapedItem {
                seeders: u32_at(s, 12 * i),
                leechers: u32_at(s, 12 * i + 4),
                completed: u32_at(s, 12 * i + 8),
            },
    )
}

/// What the reply on torrents says of them.
pub fn scrape_reply(bytes: &[u8]) -> (r: Result<Vec<ScrapedItem>, TrackerError>)
    ensures
        match r {
            Ok(items) => bytes@.len() % 12 == 0 && items@ == scraped_of(bytes@),
            Err(e) => bytes@.len() % 12 != 0 && e == TrackerError::InvalidReply,
        },
{
    if bytes.len() % 12 != 0 {
        return Err(TrackerError::InvalidReply);
    }
    let mut items: Vec<ScrapedItem> = Vec::new();
    let mut at: usize = 0;
    while at < bytes.len()
        invariant
            at <= bytes@.len(),
            bytes@.len() % 12 == 0,
            at % 12 == 0,
            items@.len() == at / 12,
            forall|i: int| 0 <= i < items@.len() ==> #[trigger] items@[i] == scraped_of(bytes@)[i],
        decreases bytes@.len() - at,
    {
        assert(at + 12 <= bytes@.len());
        assert(at == 12 * items@.len());
        items.push(
            ScrapedItem {
                seeders: read_u32(bytes, at),
                leechers: read_u32(bytes, at + 4),
                completed: read_u32(bytes, at + 8),
            },
        );
        at += 12;
    }
    assert(items@ =~= scraped_of(bytes@));
    Ok(items)
}

/// A tracker over UDP: the requests that wait for a reply, and the connection.
#[derive(Debug)]
pub struct UdpTracker {
    addr: SocketAddr,
    pending: HashMap<u32, Action>,
    tid: u32,
    key: u32,
    id: Option<(u64, u64)>,
    connecting: bool,
}

impl UdpTracker {
    /// The address of the tracker.
    pub closed spec fn spec_addr(&self) -> SocketAddr {
        self.addr
    }

    /// The requests that wait for a reply, by their transaction ids, with what they are for.
    pub closed spec fn pending(&self) -> Map<u32, Action> {
        self.pending@
    }

    /// The transaction id of the next request.
    pub closed spec fn next_tid(&self) -> u32 {
        self.tid
    }

    /// The number by which the tracker knows this client.
    pub closed spec fn key(&self) -> u32 {
        self.key
    }

    /// The connection id, and since when it is known.
    pub closed spec fn connection(&self) -> Option<(u64, u64)> {
        self.id
    }

    /// Whether the tracker was asked for a connection id.
    pub closed spec fn connecting(&self) -> bool {
        self.connecting
    }

    /// Whether all but the requests and the next transaction id is as in `other`.
    pub open spec fn same_but_requests(&self, other: &UdpTracker) -> bool {
        &&& self.spec_addr() == other.spec_addr()
        &&& self.key() == other.key()
        &&& self.connection() == other.connection()
        &&& self.connecting() == other.connecting()
    }

    /// A tracker at an address, with a random key.
    pub fn new(addr: SocketAddr) -> (r: UdpTracker)
        ensures
            r.spec_addr() == addr,
            r.pending() == Map::<u32, Action>::empty(),
            r.next_tid() == 0,
            r.connection() is None,
            !r.connecting(),
    {
        UdpTracker::with_key(addr, random_u32())
    }

    /// A tracker at an address, with a given key.
    pub fn with_key(addr: SocketAddr, key: u32) -> (r: UdpTracker)
        ensures
            r.spec_addr() == addr,
            r.key() == key,
            r.pending() == Map::<u32, Action>::empty(),
            r.next_tid() == 0,
            r.connection() is None,
            !r.connecting(),
    {
        broadcast use vstd::std_specs::hash::group_hash_axioms;

        UdpTracker { addr, pending: HashMap::new(), tid: 0, key, id: None, connecting: false }
    }

    /// The address of the tracker.
    pub fn peer_addr(&self) -> (r: SocketAddr)
        ensures
            r == self.spec_addr(),
    {
        self.addr
    }

    /// Makes a request; the result is its transaction id and its bytes.
    pub fn send_request(&mut self, connection_id: u64, action: Action, data: &[u8]) -> (r: (
        u32,
        Vec<u8>,
    ))
        ensures
            r.0 == old(self).next_tid(),
            r.1@ == request_bytes(connection_id, action, r.0, data@),
            final(self).next_tid() == (old(self).next_tid() + 1) % 0x1_0000_0000,
            final(self).pending() == old(self).pending().insert(r.0, action),
            final(self).same_but_requests(old(self)),
    {
        broadcast use vstd::std_specs::hash::group_hash_axioms;

        let tid: u32 = self.tid;
        self.tid = self.tid.wrapping_add(1);
        let mut buf: Vec<u8> = Vec::new();
        push_u64(&mut buf, connection_id);
        push_u32(&mut buf, action.code());
        push_u32(&mut buf, tid);
        append_slice(&mut buf, data);
        assert(buf@ =~= request_bytes(connection_id, action, tid, data@));
        self.pending.insert(tid, action);
        (tid, buf)
    }

    /// Gives a request up.
    pub fn cancel(&mut self, tid: u32)
        ensures
            final(self).pending() == old(self).pending().remove(tid),
            final(self).next_tid() == old(self).next_tid(),
            final(self).same_but_requests(old(self)),
    {
        broadcast use vstd::std_specs::hash::group_hash_axioms;

        self.pending.remove(&tid);
        assert(self.pending() =~= old(self).pending().remove(tid));
    }

    /// Takes in a packet.
    pub fn process_udp(&mut self, data: &[u8], addr: &SocketAddr) -> (r: UdpProcess)
        ensures
            final(self).next_tid() == old(self).next_tid(),
            final(self).same_but_requests(old(self)),
            ({
                let tid = u32_at(data@, 4);
                if addr.spec_ip() != old(self).spec_addr().spec_ip() || data@.len() < 8 {
                    r is NotOurs && final(self).pending() == old(self).pending()
                } else if !old(self).pending().dom().contains(tid) {
                    r is Unknown && final(self).pending() == old(self).pending()
                } else {
                    &&& final(self).pending() == old(self).pending().remove(tid)
                    &&& r matches UdpProcess::Reply(t, result) && t == tid && result_view(result)
                        == reply_view(old(self).pending()[tid], u32_at(data@, 0), data@.skip(8))
                }
            }),
    {
        broadcast use vstd::std_specs::hash::group_hash_axioms;

        if !(addr.ip() == self.addr.ip()) {
            return UdpProcess::NotOurs;
        }
        if data.len() < 8 {
            return UdpProcess::NotOurs;
        }
        let code: u32 = read_u32(data, 0);
        let tid: u32 = read_u32(data, 4);
        match self.pending.remove(&tid) {
            Some(action) => {
                let rest: &[u8] = sub_slice(data, 8, data.len());
                assert(rest@ =~= data@.skip(8));
                assert(self.pending() =~= old(self).pending().remove(tid));
                UdpProcess::Reply(tid, reply_data(action, code, rest))
            },
            None => {
                assert(self.pending() =~= old(self).pending());
                UdpProcess::Unknown
            },
        }
    }

    /// What to do for a connection id at a time, in nanoseconds of a steady clock. A
    /// connection id that is too old is forgotten.
    pub fn connection_id(&mut self, now: u64) -> (r: ConnectionStep)
        ensures
            final(self).pending() == old(self).pending(),
            final(self).next_tid() == old(self).next_tid(),
            final(self).spec_addr() == old(self).spec_addr(),
            final(self).key() == old(self).key(),
            match old(self).connection() {
                Some((id, time)) if now - time < CONNECTION_EXPIRY => {
                    &&& r == ConnectionStep::Use(id)
                    &&& final(self).connection() == old(self).connection()
                    &&& final(self).connecting() == old(self).connecting()
                },
                _ => {
                    &&& r == (if old(self).connecting() {
                        ConnectionStep::Wait
                    } else {
                        ConnectionStep::Connect
                    })
                    &&& final(self).connection() is None
                    &&& final(self).connecting()
                },
            },
    {
        if let Some((id, time)) = self.id {
            if now < time || now - time < CONNECTION_EXPIRY {
                return ConnectionStep::Use(id);
            }
            self.id = None;
        }
        if self.connecting {
            return ConnectionStep::Wait;
        }
        self.connecting = true;
        ConnectionStep::Connect
    }

    /// Makes a request for a connection id.
    pub fn connect(&mut self) -> (r: (u32, Vec<u8>))
        ensures
            r.0 == old(self).next_tid(),
            r.1@ == request_bytes(PROTOCOL_ID, Action::Connect, r.0, seq![]),
            final(self).next_tid() == (old(self).next_tid() + 1) % 0x1_0000_0000,
            final(self).pending() == old(self).pending().insert(r.0, Action::Connect),
            final(self).same_but_requests(old(self)),
    {
        let none: Vec<u8> = Vec::new();
        assert(none@ =~= seq![]);
        self.send_request(PROTOCOL_ID, Action::Connect, none.as_slice())
    }

    /// Keeps what came of the request for a connection id at a time, and hands it on.
    pub fn connected(&mut self, reply: Result<u64, TrackerError>, now: u64) -> (r: Result<
        u64,
        TrackerError,
    >)
        ensures
            r == reply,
            final(self).connection() == (match reply {
                Ok(id) => Some((id, now)),
                Err(_) => old(self).connection(),
            }),
            !final(self).connecting(),
            final(self).pending() == old(self).pending(),
            final(self).next_tid() == old(self).next_tid(),
            final(self).spec_addr() == old(self).spec_addr(),
            final(self).key() == old(self).key(),
    {
        if let Ok(id) = &reply {
            self.id = Some((*id, now));
        }
        self.connecting = false;
        reply
    }

    /// Makes a request that announces a peer.
    pub fn announce(&mut self, connection_id: u64, info: &AnnounceInfo) -> (r: (u32, Vec<u8>))
        ensures
            r.0 == old(self).next_tid(),
            r.1@ == request_bytes(
                connection_id,
                Action::Announce,
                r.0,
                announce_bytes(*info, old(self).key()),
            ),
            final(self).next_tid() == (old(self).next_tid() + 1) % 0x1_0000_0000,
            final(self).pending() == old(self).pending().insert(r.0, Action::Announce),
            final(self).same_but_requests(old(self)),
    {
        let num_want: u32 = match info.num_want {
            Some(n) => n,
            None => 0xffff_ffff,
        };
        let mut buf: Vec<u8> = Vec::new();
        append_slice(&mut buf, info.hash.as_slice());
        append_slice(&mut buf, info.peer_id.as_slice());
        push_u64(&mut buf, info.downloaded);
        push_u64(&mut buf, info.left);
        push_u64(&mut buf, info.uploaded);
        push_u32(&mut buf, info.event.code());
        push_u32(&mut buf, 0);
        push_u32(&mut buf, self.key);
        push_u32(&mut buf, num_want);
        push_u16(&mut buf, info.port);
        assert(buf@ =~= announce_bytes(*info, self.key()));
        self.send_request(connection_id, Action::Announce, buf.as_slice())
    }

    /// Makes a request that asks for torrents, if there are not too many.
    pub fn scrape(&mut self, connection_id: u64, hashes: &[InfoHash]) -> (r: Result<
        (u32, Vec<u8>),
        TrackerError,
    >)
        ensures
            final(self).same_but_requests(old(self)),
            match r {
                Ok((tid, bytes)) => {
                    &&& hashes@.len() <= MAX_SCRAPE
                    &&& tid == old(self).next_tid()
                    &&& bytes@ == request_bytes(
                        connection_id,
                        Action::Scrape,
                        tid,
                        hashes_bytes(hashes@),
                    )
                    &&& final(self).next_tid() == (old(self).next_tid() + 1) % 0x1_0000_0000
                    &&& final(self).pending() == old(self).pending().insert(tid, Action::Scrape)
                },
                Err(e) => {
                    &&& hashes@.len() > MAX_SCRAPE
                    &&& e == TrackerError::MaxScrapeReached
                    &&& final(self).next_tid() == old(self).next_tid()
                    &&& final(self).pending() == old(self).pending()
                },
            },
    {
        if hashes.len() > MAX_SCRAPE {
            return Err(TrackerError::MaxScrapeReached);
        }
        let mut buf: Vec<u8> = Vec::new();
        let mut i: usize = 0;
        while i < hashes.len()
            invariant
                i <= hashes@.len(),
                buf@ == hashes_bytes(hashes@.take(i as int)),
            decreases hashes@.len() - i,
        {
            append_slice(&mut buf, hashes[i].as_slice());
            i += 1;
            assert(hashes@.take(i as int).drop_last() =~= hashes@.take(i - 1));
        }
        assert(hashes@.take(i as int) =~= hashes@);
        Ok(self.send_request(connection_id, Action::Scrape, buf.as_slice()))
    }
}

/// The compact forms of peers, one behind the other.
pub open spec fn peers_bytes(peers: Seq<SocketAddr>) -> Seq<u8>
    decreases peers.len(),
{
    if peers.len() == 0 {
        seq![]
    } else {
        peers_bytes(peers.drop_last()) + compact_ip(peers.last())
    }
}

/// Whether all peers have addresses of a family, with nothing but an address and a port.
pub open spec fn plain_peers(peers: Seq<SocketAddr>, ipv4: bool) -> bool {
    forall|i: int|
        0 <= i < peers.len() ==> match #[trigger] peers[i] {
            SocketAddr::V4 { .. } => ipv4,
            SocketAddr::V6 { flowinfo, scope_id, .. } => !ipv4 && flowinfo == 0 && scope_id == 0,
        }
}

/// The compact forms of peers are read back as these peers.
proof fn lemma_peers_bytes(peers: Seq<SocketAddr>, ipv4: bool)
    requires
        plain_peers(peers, ipv4),
    ensures
        ipv4 ==> peers_bytes(peers).len() == 6 * peers.len() && peers_of_len(peers_bytes(peers), 6)
            == peers,
        !ipv4 ==> peers_bytes(peers).len() == 18 * peers.len() && peers_of_len(
            peers_bytes(peers),
            18,
        ) == peers,
    decreases peers.len(),
{
    let s = peers_bytes(peers);
    let len: int = if ipv4 {
        6
    } else {
        18
    };
    if peers.len() > 0 {
        let front = peers.drop_last();
        let last = peers.last();
        assert forall|i: int| 0 <= i < front.len() implies match #[trigger] front[i] {
            SocketAddr::V4 { .. } => ipv4,
            SocketAddr::V6 { flowinfo, scope_id, .. } => !ipv4 && flowinfo == 0 && scope_id == 0,
        } by {
            assert(front[i] == peers[i]);
        }
        lemma_peers_bytes(front, ipv4);
        law_compact_round_trip(last);
        lemma_compact_len(last);
        let n = front.len() as int;
        let p = peers_bytes(front);
        assert(s == p + compact_ip(last));
        assert(peers[n] == last);
        assert forall|i: int| 0 <= i < peers.len() implies peers_of_len(s, len)[i] == peers[i] by {
            if i < n {
                if ipv4 {
                    assert(s.subrange(6 * i, 6 * i + 6) =~= p.subrange(6 * i, 6 * i + 6));
                } else {
                    assert(s.subrange(18 * i, 18 * i + 18) =~= p.subrange(18 * i, 18 * i + 18));
                }
                assert(peers_of_len(p, len)[i] == front[i]);
            } else if ipv4 {
                assert(s.subrange(6 * n, 6 * n + 6) =~= compact_ip(last));
            } else {
                assert(s.subrange(18 * n, 18 * n + 18) =~= compact_ip(last));
            }
        }
    }
    assert(peers_of_len(s, len) =~= peers);
}

/// The compact forms of peers with addresses of one family, which have nothing but an address
/// and a port, are read back as these peers: always where it is the family of the tracker's
/// address, and from a tracker with an IPv6 address also those with IPv4 addresses, unless
/// their number is a multiple of three.
pub proof fn law_peers_round_trip(peers: Seq<SocketAddr>, peers_ipv4: bool, tracker_ipv4: bool)
    requires
        plain_peers(peers, peers_ipv4),
        tracker_ipv4 ==> peers_ipv4,
        peers_ipv4 && !tracker_ipv4 ==> peers.len() % 3 != 0,
    ensures
        peers_bytes(peers).len() == (if peers_ipv4 {
            6 * peers.len()
        } else {
            18 * peers.len()
        }),
        peers_of(peers_bytes(peers), tracker_ipv4) == Some(peers),
{
    lemma_peers_bytes(peers, peers_ipv4);
}

/// A request says which transaction it is, what it is for and over which connection, and
/// then holds the data.
pub proof fn law_request(connection_id: u64, action: Action, tid: u32, data: Seq<u8>)
    ensures
        ({
            let s = request_bytes(connection_id, action, tid, data);
            &&& s.len() == 16 + data.len()
            &&& big_endian(s.take(8)) == connection_id
            &&& u32_at(s, 8) == action_code(action)
            &&& u32_at(s, 12) == tid
            &&& s.skip(16) == data
        }),
{
    let s = request_bytes(connection_id, action, tid, data);
    let code = action_code(action);
    assert(vstd::arithmetic::power::pow(256, 4) == 0x1_0000_0000
        && vstd::arithmetic::power::pow(256, 8) == 0x1_0000_0000_0000_0000) by {
        reveal_with_fuel(vstd::arithmetic::power::pow, 9);
    }
    lemma_big_endian_bytes_len(connection_id as nat, 8);
    lemma_big_endian_bytes_len(code as nat, 4);
    lemma_big_endian_bytes_len(tid as nat, 4);
    lemma_big_endian_round_trip(connection_id as nat, 8);
    lemma_big_endian_round_trip(code as nat, 4);
    lemma_big_endian_round_trip(tid as nat, 4);
    assert(s.take(8) =~= big_endian_bytes(connection_id as nat, 8));
    assert(s.subrange(8, 12) =~= big_endian_bytes(code as nat, 4));
    assert(s.subrange(12, 16) =~= big_endian_bytes(tid as nat, 4));
    assert(s.skip(16) =~= data);
}

/// Requests for a connection, announcements and questions for torrents have the numbers
/// from zero on, in the third word of a request; the number of an error comes next.
pub proof fn law_request_actions(connection_id: u64, tid: u32, data: Seq<u8>)
    ensures
        u32_at(request_bytes(connection_id, Action::Connect, tid, data), 8) == 0,
        u32_at(request_bytes(connection_id, Action::Announce, tid, data), 8) == 1,
        u32_at(request_bytes(connection_id, Action::Scrape, tid, data), 8) == 2,
        big_endian(request_bytes(PROTOCOL_ID, Action::Connect, tid, data).take(8))
            == 0x0000_0417_2710_1980,
{
    law_request(connection_id, Action::Connect, tid, data);
    law_request(connection_id, Action::Announce, tid, data);
    law_request(connection_id, Action::Scrape, tid, data);
    law_request(PROTOCOL_ID, Action::Connect, tid, data);
}

/// What of a number of that many bytes can be read again.
proof fn lemma_number(n: nat)
    ensures
        n <= 0xffff ==> big_endian_bytes(n, 2).len() == 2 && big_endian(big_endian_bytes(n, 2))
            == n,
        n <= 0xffff_ffff ==> big_endian_bytes(n, 4).len() == 4 && big_endian(
            big_endian_bytes(n, 4),
        ) == n,
        n <= 0xffff_ffff_ffff_ffff ==> big_endian_bytes(n, 8).len() == 8 && big_endian(
            big_endian_bytes(n, 8),
        ) == n,
{
    assert(vstd::arithmetic::power::pow(256, 2) == 0x1_0000 && vstd::arithmetic::power::pow(256, 4)
        == 0x1_0000_0000 && vstd::arithmetic::power::pow(256, 8) == 0x1_0000_0000_0000_0000) by {
        reveal_with_fuel(vstd::arithmetic::power::pow, 9);
    }
    lemma_big_endian_bytes_len(n, 2);
    lemma_big_endian_bytes_len(n, 4);
    lemma_big_endian_bytes_len(n, 8);
    if n <= 0xffff {
        lemma_big_endian_round_trip(n, 2);
    }
    if n <= 0xffff_ffff {
        lemma_big_endian_round_trip(n, 4);
    }
    if n <= 0xffff_ffff_ffff_ffff {
        lemma_big_endian_round_trip(n, 8);
    }
}

/// An announcement has 82 bytes, and each of its fields stands in its place.
pub proof fn law_announcement(info: AnnounceInfo, key: u32)
    ensures
        ({
            let s = announce_bytes(info, key);
            &&& s.len() == 82
            &&& s.subrange(0, 20) == info.hash@
            &&& s.subrange(20, 40) == info.peer_id@
            &&& big_endian(s.subrange(40, 48)) == info.downloaded
            &&& big_endian(s.subrange(48, 56)) == info.left
            &&& big_endian(s.subrange(56, 64)) == info.uploaded
            &&& big_endian(s.subrange(64, 68)) == (match info.event {
                Event::Empty => 0nat,
                Event::Completed => 1,
                Event::Started => 2,
                Event::Stopped => 3,
            })
            &&& big_endian(s.subrange(68, 72)) == 0
            &&& big_endian(s.subrange(72, 76)) == key
            &&& big_endian(s.subrange(76, 80)) == (match info.num_want {
                Some(n) => n as nat,
                None => 0xffff_ffff,
            })
            &&& big_endian(s.subrange(80, 82)) == info.port
        }),
{
    let s = announce_bytes(info, key);
    let want = (match info.num_want {
        Some(n) => n,
        None => 0xffff_ffff,
    }) as nat;
    let event = event_code(info.event) as nat;
    info.peer_id.lemma_len();
    lemma_number(info.downloaded as nat);
    lemma_number(info.left as nat);
    lemma_number(info.uploaded as nat);
    lemma_number(event);
    lemma_number(0);
    lemma_number(key as nat);
    lemma_number(want);
    lemma_number(info.port as nat);
    assert(s.subrange(0, 20) =~= info.hash@);
    assert(s.subrange(20, 40) =~= info.peer_id@);
    assert(s.subrange(40, 48) =~= big_endian_bytes(info.downloaded as nat, 8));
    assert(s.subrange(48, 56) =~= big_endian_bytes(info.left as nat, 8));
    assert(s.subrange(56, 64) =~= big_endian_bytes(info.uploaded as nat, 8));
    assert(s.subrange(64, 68) =~= big_endian_bytes(event, 4));
    assert(s.subrange(68, 72) =~= big_endian_bytes(0, 4));
    assert(s.subrange(72, 76) =~= big_endian_bytes(key as nat, 4));
    assert(s.subrange(76, 80) =~= big_endian_bytes(want, 4));
    assert(s.subrange(80, 82) =~= big_endian_bytes(info.port as nat, 2));
}

/// The hashes of the torrents that are asked for stand one behind the other.
pub proof fn law_hashes(hashes: Seq<InfoHash>, i: int)
    requires
        0 <= i < hashes.len(),
    ensures
        hashes_bytes(hashes).len() == 20 * hashes.len(),
        hashes_bytes(hashes).subrange(20 * i, 20 * i + 20) == hashes[i]@,
    decreases hashes.len(),
{
    let front = hashes.drop_last();
    lemma_hashes_len(hashes);
    lemma_hashes_len(front);
    if i < front.len() {
        law_hashes(front, i);
        assert(hashes_bytes(hashes).subrange(20 * i, 20 * i + 20) =~= hashes_bytes(front).subrange(
            20 * i,
            20 * i + 20,
        ));
    } else {
        assert(hashes_bytes(hashes).subrange(20 * i, 20 * i + 20) =~= hashes[i]@);
    }
}

/// Hashes have twenty bytes each.
proof fn lemma_hashes_len(hashes: Seq<InfoHash>)
    ensures
        hashes_bytes(hashes).len() == 20 * hashes.len(),
    decreases hashes.len(),
{
    if hashes.len() > 0 {
        lemma_hashes_len(hashes.drop_last());
    }
}

/// As many torrents can be asked for as fit in a packet of 1500 bytes.
pub proof fn law_scrape_fits(connection_id: u64, tid: u32, hashes: Seq<InfoHash>)
    ensures
        hashes.len() <= MAX_SCRAPE <==> request_bytes(
            connection_id,
            Action::Scrape,
            tid,
            hashes_bytes(hashes),
        ).len() <= 1500,
{
    lemma_hashes_len(hashes);
    law_request(connection_id, Action::Scrape, tid, hashes_bytes(hashes));
}

/// A reply with the number of its request brings the data, one with the number of an error
/// says what is wrong, and all others are invalid.
pub proof fn law_reply(action: Action, code: u32, data: Seq<u8>)
    ensures
        code == 3 <==> reply_view(action, code, data) == Err::<Seq<u8>, Failure>(
            Failure::Error(lossy_text(data)),
        ),
        reply_view(Action::Connect, 0, data) == Ok::<Seq<u8>, Failure>(data),
        reply_view(Action::Announce, 1, data) == Ok::<Seq<u8>, Failure>(data),
        reply_view(Action::Scrape, 2, data) == Ok::<Seq<u8>, Failure>(data),
        reply_view(action, code, data) is Ok ==> u32_at(request_bytes(0, action, 0, data), 8)
            == code,
        reply_view(action, code, data) matches Err(e) ==> e == Failure::InvalidReply || code == 3,
{
    law_request(0, action, 0, data);
}

/// What a tracker knows of one more torrent stands behind what it knows of the others:
/// the seeders, the leechers, and how often it was completed.
pub proof fn law_scraped(s: Seq<u8>, item: ScrapedItem)
    requires
        s.len() % 12 == 0,
    ensures
        scraped_of(
            s + big_endian_bytes(item.seeders as nat, 4) + big_endian_bytes(
                item.leechers as nat,
                4,
            ) + big_endian_bytes(item.completed as nat, 4),
        ) == scraped_of(s).push(item),
{
    let (a, b, c) = (
        big_endian_bytes(item.seeders as nat, 4),
        big_endian_bytes(item.leechers as nat, 4),
        big_endian_bytes(item.completed as nat, 4),
    );
    lemma_number(item.seeders as nat);
    lemma_number(item.leechers as nat);
    lemma_number(item.completed as nat);
    let t = s + a + b + c;
    let n = s.len() as int / 12;
    assert(s.len() == 12 * n);
    assert(t.len() == 12 * n + 12);
    assert(t.subrange(12 * n, 12 * n + 4) =~= a);
    assert(t.subrange(12 * n + 4, 12 * n + 8) =~= b);
    assert(t.subrange(12 * n + 8, 12 * n + 12) =~= c);
    assert forall|i: int| 0 <= i < n implies #[trigger] scraped_of(t)[i] == scraped_of(s)[i] by {
        assert(t.subrange(12 * i, 12 * i + 4) =~= s.subrange(12 * i, 12 * i + 4));
        assert(t.subrange(12 * i + 4, 12 * i + 8) =~= s.subrange(12 * i + 4, 12 * i + 8));
        assert(t.subrange(12 * i + 8, 12 * i + 12) =~= s.subrange(12 * i + 8, 12 * i + 12));
    }
    assert(scraped_of(t)[n] == item);
    assert(scraped_of(t) =~= scraped_of(s).push(item));
}

} // verus!
