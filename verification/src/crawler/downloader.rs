//! Downloading the metadata of torrents from peers.

use super::recent::{
    distinct_keys, law_put_front, lemma_put_again, lemma_without, lookup, put_front, without, RecentKeys,
};
use crate::assoc::AssocMap;
use crate::bencode::fields::str_field;
use crate::bencode::value::{dict_insert, Value};
use crate::bencode::{Dict, Object};
use crate::bt::bt_stream::{
    extension_number, extensions_view, BtError, BtHandshakeInfo, BtMessage, PeerId, Wire,
};
use crate::bt::crypto::{sha1, sha1_digest};
use crate::bt::ext_messages::{
    law_metadata_round_trip, metadata_of, metadata_value, UtMetadataMessage,
};
use crate::bytes::{append_slice, bytes_equal, text};
use crate::kad::addr::{IpAddr, SocketAddr};
use crate::kad::compact::{
    compact_your_ip, encode_your_ip, law_compact_your_ip_round_trip, parse_your_ip, parsed_your_ip,
};
use crate::kad::nodeid::{lemma_id_eq, InfoHash, NodeId};
use crate::krpc::messages::no_entries;
use vstd::prelude::*;
use vstd::string::StringExecFns;

verus! {

/// How many workers run at once.
pub const MAX_WORKERS: usize = 10;

/// From how many peers a worker downloads at once.
pub const MAX_CONCURRENT: usize = 10;

/// How many peers can wait for a worker.
pub const MAX_PENDING_PEERS: usize = 100;

/// How long a download may take, in seconds.
pub const MAX_DOWNLOAD_TIME: u64 = 60;

/// How long a piece of metadata is, apart from the last.
pub const PIECE_SIZE: u64 = 16384;

/// For how many hashes peers are expected.
pub const HASHES_LIMIT: usize = 1000;

/// How many addresses of this host are kept.
pub const MY_IPS_LIMIT: usize = 3;

/// What uses the metadata that is downloaded.
pub trait DownloaderController {
    /// Metadata was downloaded.
    fn on_metadata_downloaded(&self, info_hash: InfoHash, data: Vec<u8>);

    /// Whether there is metadata for a hash.
    fn has_metadata(&self, info_hash: InfoHash) -> (r: bool);
}

/// The extensions of this side in a handshake with a peer.
pub open spec fn own_extensions(ip: IpAddr) -> Value {
    let m = dict_insert(no_entries(), text("ut_metadata"), Value::Int(1));
    let d = dict_insert(no_entries(), text("m"), Value::Dict(m));
    let d = dict_insert(d, text("v"), Value::Str(text("DHT Indexer")));
    Value::Dict(dict_insert(d, text("yourip"), Value::Str(compact_your_ip(ip))))
}

/// What this side says of itself in a handshake with a peer.
pub fn make_handshake_info(peer_id: PeerId, hash: InfoHash, peer_addr: &SocketAddr) -> (r:
    BtHandshakeInfo)
    ensures
        r.hash == hash,
        r.peer_id == peer_id,
        extensions_view(r.extensions) == Some(own_extensions(peer_addr.spec_ip())),
{
    broadcast use Object::lemma_view;

    let mut m = Dict::new();
    m.set_int("ut_metadata", 1);
    let mut dict = Dict::new();
    dict.set("m", Object::Dict(m));
    dict.set_str("v", "DHT Indexer".as_bytes());
    dict.set_str("yourip", encode_your_ip(&peer_addr.ip()).as_slice());
    BtHandshakeInfo { hash, peer_id, extensions: Some(Object::Dict(dict)) }
}

/// The answer to a peer that asks for a torrent, where it is known whether there is
/// metadata for it.
pub fn answer_request(has_metadata: bool, peer_id: PeerId, hash: InfoHash, ip: &SocketAddr) -> (r:
    Result<BtHandshakeInfo, BtError>)
    ensures
        match r {
            Ok(info) => {
                &&& !has_metadata
                &&& info.hash == hash
                &&& info.peer_id == peer_id
                &&& extensions_view(info.extensions) == Some(own_extensions(ip.spec_ip()))
            },
            Err(e) => has_metadata && says(e, "Already have metadata"@),
        },
{
    if has_metadata {
        return Err(user_error("Already have metadata"));
    }
    Ok(make_handshake_info(peer_id, hash, ip))
}

/// Whether an error is the one with a text.
pub open spec fn says(e: BtError, text: Seq<char>) -> bool {
    e matches BtError::UserDefined(s) && s@ == text
}

/// The error with a text.
fn user_error(text: &str) -> (r: BtError)
    ensures
        says(r, text@),
{
    BtError::UserDefined(String::from_str(text))
}

/// The address that a peer sees this side at, where it says so.
pub open spec fn told_ip(extensions: Option<Value>) -> Option<IpAddr> {
    match extensions {
        Some(v) => match str_field(v, text("yourip")) {
            Some(s) => parsed_your_ip(s),
            None => None,
        },
        None => None,
    }
}

/// The address that a peer sees this side at, where it says so.
pub fn your_ip(peer_info: &BtHandshakeInfo) -> (r: Option<IpAddr>)
    ensures
        r == told_ip(extensions_view(peer_info.extensions)),
{
    match &peer_info.extensions {
        Some(extensions) => match extensions.str_field("yourip") {
            Some(s) => parse_your_ip(s.as_slice()),
            None => None,
        },
        None => None,
    }
}

/// How many pieces metadata of a size has.
pub open spec fn piece_count(size: int) -> int {
    (size + 16383) / 16384
}

/// How far a download is.
pub struct Progress {
    pub hash: Seq<u8>,
    /// The number under which the peer takes messages on metadata.
    pub peer_id: u8,
    /// The number under which this side takes them.
    pub local_id: u8,
    pub pieces: u64,
    /// The piece that is asked for.
    pub piece: u64,
    pub data: Seq<u8>,
}

/// What a message from the peer is for a download.
pub enum Received {
    /// Nothing of use.
    Other,
    /// The piece that was asked for.
    Piece(Seq<u8>),
    /// A refusal to send that piece.
    Rejected,
    /// A wrong message on metadata.
    Invalid,
}

/// What a message from the peer is for a download.
pub open spec fn received(p: Progress, m: Wire) -> Received {
    match m {
        Wire::Extended { id, msg, payload } => if id != p.local_id {
            Received::Other
        } else {
            match metadata_of(msg) {
                Some(UtMetadataMessage::Data { piece, .. }) => if piece == p.piece {
                    Received::Piece(payload)
                } else {
                    Received::Invalid
                },
                Some(UtMetadataMessage::Reject { piece }) => if piece == p.piece {
                    Received::Rejected
                } else {
                    Received::Invalid
                },
                _ => Received::Invalid,
            }
        },
        _ => Received::Other,
    }
}

/// A download after messages from the peer; nothing where it failed.
pub open spec fn progress_after(p: Progress, messages: Seq<Wire>) -> Option<Progress>
    decreases messages.len(),
{
    if messages.len() == 0 {
        Some(p)
    } else {
        match progress_after(p, messages.drop_last()) {
            Some(q) => match received(q, messages.last()) {
                Received::Other => Some(q),
                Received::Piece(payload) => Some(
                    Progress { piece: (q.piece + 1) as u64, data: q.data + payload, ..q },
                ),
                _ => None,
            },
            None => None,
        }
    }
}

/// A download of metadata from a peer.
#[derive(Debug)]
pub struct Download {
    hash: InfoHash,
    metadata_id: u8,
    local_metadata_id: u8,
    pieces: u64,
    piece: u64,
    torrent: Vec<u8>,
}

impl View for Download {
    type V = Progress;

    closed spec fn view(&self) -> Progress {
        Progress {
            hash: self.hash@,
            peer_id: self.metadata_id,
            local_id: self.local_metadata_id,
            pieces: self.pieces,
            piece: self.piece,
            data: self.torrent@,
        }
    }
}

impl Download {
    /// Whether no more than all pieces have come.
    pub open spec fn wf(&self) -> bool {
        self@.piece <= self@.pieces
    }

    /// The start of a download, where both sides exchange metadata and the peer has it.
    pub fn start(peer_info: &BtHandshakeInfo, local_info: &BtHandshakeInfo, hash: InfoHash) -> (r:
        Result<Download, BtError>)
        ensures
            ({
                let peer = extensions_view(peer_info.extensions);
                let local = extensions_view(local_info.extensions);
                let peer_id = extension_number(peer, text("ut_metadata"));
                let local_id = extension_number(local, text("ut_metadata"));
                match (peer_id, told_size(peer), local_id) {
                    (None, _, _) => r == Err::<Download, BtError>(BtError::UnsupportedExtension),
                    (Some(_), None, _) => r matches Err(e) && says(
                        e,
                        "Peer doesn't have metadata"@,
                    ),
                    (Some(_), Some(_), None) => r == Err::<Download, BtError>(
                        BtError::UnsupportedExtension,
                    ),
                    (Some(peer_id), Some(size), Some(local_id)) => {
                        &&& r matches Ok(download)
                        &&& download.wf()
                        &&& download@ == (Progress {
                            hash: hash@,
                            peer_id,
                            local_id,
                            pieces: piece_count(size as int) as u64,
                            piece: 0,
                            data: seq![],
                        })
                    },
                }
            }),
    {
        let metadata_id: u8 = match peer_info.metadata_id() {
            Some(id) => id,
            None => {
                return Err(BtError::UnsupportedExtension);
            },
        };
        let metadata_size: u64 = match peer_info.metadata_size() {
            Some(size) => size,
            None => {
                return Err(user_error("Peer doesn't have metadata"));
            },
        };
        let local_metadata_id: u8 = match local_info.metadata_id() {
            Some(id) => id,
            None => {
                return Err(BtError::UnsupportedExtension);
            },
        };
        assert(metadata_size <= i64::MAX);
        let pieces: u64 = (metadata_size + 16383) / PIECE_SIZE;
        let torrent: Vec<u8> = Vec::new();
        assert(torrent@ =~= seq![]);
        Ok(Download { hash, metadata_id, local_metadata_id, pieces, piece: 0, torrent })
    }

    /// The request to send to the peer: for the next piece, if there is one.
    pub fn request(&self) -> (r: Option<BtMessage>)
        requires
            self.wf(),
        ensures
            match r {
                Some(message) => self@.piece < self@.pieces && message@ == (Wire::Extended {
                    id: self@.peer_id,
                    msg: metadata_value(UtMetadataMessage::Request { piece: self@.piece }),
                    payload: seq![],
                }),
                None => self@.piece == self@.pieces,
            },
    {
        if self.piece >= self.pieces {
            return None;
        }
        let request = UtMetadataMessage::Request { piece: self.piece };
        let payload: Vec<u8> = Vec::new();
        assert(payload@ =~= seq![]);
        Some(BtMessage::Extended { id: self.metadata_id, msg: request.to_bencode(), payload })
    }

    /// Takes in a message from the peer; the result is whether it is the piece that was
    /// asked for.
    pub fn receive(&mut self, message: &BtMessage) -> (r: Result<bool, BtError>)
        requires
            old(self).wf(),
            old(self)@.piece < old(self)@.pieces,
        ensures
            final(self).wf(),
            match received(old(self)@, message@) {
                Received::Other => r == Ok::<bool, BtError>(false) && final(self)@ == old(self)@,
                Received::Piece(payload) => r == Ok::<bool, BtError>(true) && final(self)@ == (
                Progress {
                    piece: (old(self)@.piece + 1) as u64,
                    data: old(self)@.data + payload,
                    ..old(self)@
                }),
                Received::Rejected => final(self)@ == old(self)@ && (r matches Err(e) && says(
                    e,
                    "Peer reject too many times"@,
                )),
                Received::Invalid => final(self)@ == old(self)@ && r == Err::<bool, BtError>(
                    BtError::InvalidMessage,
                ),
            },
    {
        match message {
            BtMessage::Extended { id, msg, payload } => {
                if *id != self.local_metadata_id {
                    return Ok(false);
                }
                match UtMetadataMessage::from_bencode(msg) {
                    Some(UtMetadataMessage::Data { piece, .. }) => {
                        if piece != self.piece {
                            return Err(BtError::InvalidMessage);
                        }
                        append_slice(&mut self.torrent, payload.as_slice());
                        self.piece += 1;
                        Ok(true)
                    },
                    Some(UtMetadataMessage::Reject { piece }) => {
                        if piece != self.piece {
                            return Err(BtError::InvalidMessage);
                        }
                        Err(user_error("Peer reject too many times"))
                    },
                    _ => Err(BtError::InvalidMessage),
                }
            },
            _ => Ok(false),
        }
    }

    /// The metadata, where it has the hash that is wanted.
    pub fn finish(self) -> (r: Result<Vec<u8>, BtError>)
        requires
            self.wf(),
            self@.piece == self@.pieces,
        ensures
            match r {
                Ok(data) => data@ == self@.data && sha1_digest(data@) == self@.hash,
                Err(e) => sha1_digest(self@.data) != self@.hash && says(e, "Hash mismatch"@),
            },
    {
        let digest = sha1(self.torrent.as_slice());
        if !bytes_equal(digest.as_slice(), self.hash.as_slice()) {
            return Err(user_error("Hash mismatch"));
        }
        Ok(self.torrent)
    }
}

/// How large the metadata of a peer is, where it says so.
pub open spec fn told_size(extensions: Option<Value>) -> Option<u64> {
    match extensions {
        Some(v) => match crate::bencode::fields::int_field(v, text("metadata_size")) {
            Some(size) => if size >= 0 {
                Some(size as u64)
            } else {
                None
            },
            None => None,
        },
        None => None,
    }
}

/// A piece of metadata.
pub open spec fn metadata_piece(metadata: Seq<u8>, i: int) -> Seq<u8> {
    metadata.subrange(
        16384 * i,
        if 16384 * i + 16384 < metadata.len() {
            16384 * i + 16384
        } else {
            metadata.len() as int
        },
    )
}

/// The message with which a peer sends a piece of metadata.
pub open spec fn piece_message(local_id: u8, metadata: Seq<u8>, i: int) -> Wire {
    Wire::Extended {
        id: local_id,
        msg: metadata_value(
            UtMetadataMessage::Data { piece: i as u64, total_size: metadata.len() as u64 },
        ),
        payload: metadata_piece(metadata, i),
    }
}

/// The messages with which a peer sends the first pieces of metadata.
pub open spec fn piece_messages(local_id: u8, metadata: Seq<u8>, n: nat) -> Seq<Wire> {
    Seq::new(n, |i: int| piece_message(local_id, metadata, i))
}

/// Where a peer sends the pieces of the metadata in order, they have all come in the end,
/// and what has come is the metadata.
pub proof fn law_download(p: Progress, metadata: Seq<u8>)
    requires
        metadata.len() <= i64::MAX,
        p.piece == 0,
        p.data.len() == 0,
        p.pieces == piece_count(metadata.len() as int),
    ensures
        progress_after(p, piece_messages(p.local_id, metadata, p.pieces as nat)) == Some(
            Progress { piece: p.pieces, data: metadata, ..p },
        ),
{
    let n = p.pieces as nat;
    lemma_download(p, metadata, n);
    let end = if 16384 * n < metadata.len() {
        16384 * n as int
    } else {
        metadata.len() as int
    };
    assert(metadata.take(end) =~= metadata);
}

/// What has come after the first pieces.
proof fn lemma_download(p: Progress, metadata: Seq<u8>, n: nat)
    requires
        metadata.len() <= i64::MAX,
        p.piece == 0,
        p.data.len() == 0,
        p.pieces == piece_count(metadata.len() as int),
        n <= p.pieces,
    ensures
        ({
            let end = if 16384 * n < metadata.len() {
                16384 * n as int
            } else {
                metadata.len() as int
            };
            progress_after(p, piece_messages(p.local_id, metadata, n)) == Some(
                Progress { piece: n as u64, data: metadata.take(end), ..p },
            )
        }),
    decreases n,
{
    let messages = piece_messages(p.local_id, metadata, n);
    if n == 0 {
        assert(metadata.take(0) =~= p.data);
    } else {
        let k = (n - 1) as nat;
        lemma_download(p, metadata, k);
        assert(messages.drop_last() =~= piece_messages(p.local_id, metadata, k));
        law_metadata_round_trip(
            UtMetadataMessage::Data { piece: k as u64, total_size: metadata.len() as u64 },
        );
        assert(16384 * k < metadata.len());
        let end = if 16384 * n < metadata.len() {
            16384 * n as int
        } else {
            metadata.len() as int
        };
        assert(metadata.take(16384 * k as int) + metadata_piece(metadata, k as int)
            =~= metadata.take(end));
    }
}

/// What a worker does next.
#[derive(Debug, Clone, Copy)]
pub enum WorkerAction {
    /// Start a download from that peer.
    Start(SocketAddr),
    /// Wait until one of the downloads ends.
    Wait,
    /// Wait for a while, in case another peer comes.
    Sleep,
    /// End: there is nothing more to do.
    Exit,
}

/// The downloads of the metadata of one torrent.
#[derive(Debug)]
pub struct Worker {
    queue: Vec<SocketAddr>,
    running: usize,
    once_empty: bool,
}

impl Worker {
    /// The peers that wait.
    pub closed spec fn queue(&self) -> Seq<SocketAddr> {
        self.queue@
    }

    /// How many downloads run.
    pub closed spec fn running(&self) -> nat {
        self.running as nat
    }

    /// Whether there was nothing to do the last time.
    pub closed spec fn once_empty(&self) -> bool {
        self.once_empty
    }

    /// Whether not too many peers wait and not too many downloads run.
    pub open spec fn wf(&self) -> bool {
        self.queue().len() <= MAX_PENDING_PEERS && self.running() <= MAX_CONCURRENT
    }

    /// A worker with its first peer.
    pub fn new(peer: SocketAddr) -> (r: Worker)
        ensures
            r.wf(),
            r.queue() == seq![peer],
            r.running() == 0,
            !r.once_empty(),
    {
        let mut queue: Vec<SocketAddr> = Vec::new();
        queue.push(peer);
        assert(queue@ =~= seq![peer]);
        Worker { queue, running: 0, once_empty: false }
    }

    /// Lets a peer wait, unless too many do; the result is whether it does.
    pub fn send(&mut self, peer: SocketAddr) -> (r: bool)
        requires
            old(self).wf(),
        ensures
            final(self).wf(),
            r == (old(self).queue().len() < MAX_PENDING_PEERS),
            final(self).queue() == (if r {
                old(self).queue().push(peer)
            } else {
                old(self).queue()
            }),
            final(self).running() == old(self).running(),
            final(self).once_empty() == old(self).once_empty(),
    {
        if self.queue.len() >= MAX_PENDING_PEERS {
            return false;
        }
        self.queue.push(peer);
        true
    }

    /// What to do next: start a download while there are peers and not too many run, else
    /// wait for one that runs; end where there was nothing to do twice in a row.
    pub fn next(&mut self) -> (r: WorkerAction)
        requires
            old(self).wf(),
        ensures
            final(self).wf(),
            if old(self).running() < MAX_CONCURRENT && old(self).queue().len() > 0 {
                &&& r == WorkerAction::Start(old(self).queue()[0])
                &&& final(self).queue() == old(self).queue().skip(1)
                &&& final(self).running() == old(self).running() + 1
                &&& !final(self).once_empty()
            } else if old(self).running() > 0 {
                r == WorkerAction::Wait && *final(self) == *old(self)
            } else if old(self).once_empty() {
                r == WorkerAction::Exit && *final(self) == *old(self)
            } else {
                &&& r == WorkerAction::Sleep
                &&& final(self).queue() == old(self).queue()
                &&& final(self).running() == 0
                &&& final(self).once_empty()
            },
    {
        if self.running < MAX_CONCURRENT && self.queue.len() > 0 {
            let peer = self.queue.remove(0);
            self.once_empty = false;
            self.running += 1;
            assert(self.queue() =~= old(self).queue().skip(1));
            return WorkerAction::Start(peer);
        }
        if self.running > 0 {
            return WorkerAction::Wait;
        }
        if self.once_empty {
            return WorkerAction::Exit;
        }
        self.once_empty = true;
        WorkerAction::Sleep
    }

    /// Takes note that a download ended: one that failed or took too long has no result.
    /// The result is what to hand on; the worker ends with it.
    pub fn finished(&mut self, result: Option<Result<Vec<u8>, BtError>>) -> (r: Option<Vec<u8>>)
        requires
            old(self).wf(),
            old(self).running() > 0,
        ensures
            final(self).wf(),
            final(self).queue() == old(self).queue(),
            final(self).running() == old(self).running() - 1,
            final(self).once_empty() == old(self).once_empty(),
            r == (match result {
                Some(Ok(data)) => Some(data),
                _ => None,
            }),
    {
        self.running -= 1;
        match result {
            Some(Ok(data)) => Some(data),
            _ => None,
        }
    }
}

/// What became of a peer that was found.
#[derive(Debug, Clone, Copy, PartialEq, Eq, Structural)]
pub enum PeerAdded {
    /// It is this host.
    Own,
    /// It waits for the worker of the torrent.
    Queued,
    /// Too many peers wait for the worker of the torrent.
    Busy,
    /// It is the first one for the torrent, for which a worker is to be started.
    Started,
}

/// The key under which an address of this host is kept.
pub open spec fn ip_key(ip: IpAddr) -> Seq<u8> {
    compact_your_ip(ip)
}

/// Whether all keys are as long as hashes.
pub open spec fn hash_keys(entries: Seq<(Seq<u8>, Option<u64>)>) -> bool {
    forall|i: int| 0 <= i < entries.len() ==> (#[trigger] entries[i]).0.len() == 20
}

/// Keys stay as long as hashes where a hash is put in front or taken out.
pub proof fn lemma_hash_keys(entries: Seq<(Seq<u8>, Option<u64>)>, limit: nat, key: Seq<u8>)
    requires
        hash_keys(entries),
        0 < limit,
        key.len() == 20,
    ensures
        hash_keys(put_front(entries, limit, key, None)),
        hash_keys(without(entries, key)),
{
    lemma_without(entries, key);
    let w = without(entries, key);
    assert forall|i: int| 0 <= i < w.len() implies (#[trigger] w[i]).0.len() == 20 by {
        assert(entries.contains(w[i]));
    }
    let after = put_front(entries, limit, key, None);
    assert forall|i: int| 0 <= i < after.len() implies (#[trigger] after[i]).0.len() == 20 by {
        if i > 0 {
            if lookup(entries, key) is Some {
                assert(after[i] == w[i - 1]);
            } else {
                assert(after[i] == entries[i - 1]);
            }
        }
    }
}

/// Whether an address is kept as one of this host.
pub open spec fn own(ips: Seq<(Seq<u8>, Option<u64>)>, addr: SocketAddr) -> bool {
    lookup(ips, ip_key(addr.spec_ip())) is Some
}

/// Whether all addresses are kept as ones of this host.
pub open spec fn all_own(ips: Seq<(Seq<u8>, Option<u64>)>, addrs: Seq<SocketAddr>) -> bool {
    forall|k: int| 0 <= k < addrs.len() ==> own(ips, #[trigger] addrs[k])
}

/// The peers that wait for the worker of a torrent; nothing where there is no worker.
pub open spec fn queue_of(workers: Map<InfoHash, Worker>, hash: InfoHash) -> Option<
    Seq<SocketAddr>,
> {
    if workers.dom().contains(hash) {
        Some(workers[hash].queue())
    } else {
        None
    }
}

/// The peers that wait for the worker of a torrent after another peer was added, and what
/// became of it.
pub open spec fn peer_added(
    ips: Seq<(Seq<u8>, Option<u64>)>,
    queue: Option<Seq<SocketAddr>>,
    peer: SocketAddr,
) -> (Option<Seq<SocketAddr>>, PeerAdded) {
    if own(ips, peer) {
        (queue, PeerAdded::Own)
    } else {
        match queue {
            Some(q) => if q.len() < MAX_PENDING_PEERS {
                (Some(q.push(peer)), PeerAdded::Queued)
            } else {
                (queue, PeerAdded::Busy)
            },
            None => (Some(seq![peer]), PeerAdded::Started),
        }
    }
}

/// The peers that wait for the worker of a torrent after other peers were added, and what
/// became of each.
pub open spec fn peers_added(
    ips: Seq<(Seq<u8>, Option<u64>)>,
    queue: Option<Seq<SocketAddr>>,
    peers: Seq<SocketAddr>,
) -> (Option<Seq<SocketAddr>>, Seq<PeerAdded>)
    decreases peers.len(),
{
    if peers.len() == 0 {
        (queue, seq![])
    } else {
        let (before, added) = peers_added(ips, queue, peers.drop_last());
        let (after, last) = peer_added(ips, before, peers.last());
        (after, added.push(last))
    }
}

/// The downloads of metadata.
pub struct Downloader {
    workers: AssocMap<InfoHash, Worker>,
    hashes: RecentKeys,
    my_ips: RecentKeys,
    peer_id: PeerId,
}

impl Downloader {
    /// The workers, by the hashes of their torrents.
    pub closed spec fn workers(&self) -> Map<InfoHash, Worker> {
        self.workers@
    }

    /// The hashes for which peers are expected.
    pub closed spec fn hashes(&self) -> RecentKeys {
        self.hashes
    }

    /// The addresses of this host.
    pub closed spec fn my_ips(&self) -> RecentKeys {
        self.my_ips
    }

    /// The identifier of this peer.
    pub closed spec fn spec_peer_id(&self) -> PeerId {
        self.peer_id
    }

    /// Whether no hash has two workers.
    pub closed spec fn workers_wf(&self) -> bool {
        self.workers.wf()
    }

    /// Whether all parts are well-formed.
    pub open spec fn wf(&self) -> bool {
        &&& self.workers_wf()
        &&& forall|hash: InfoHash| #[trigger]
            self.workers().dom().contains(hash) ==> self.workers()[hash].wf()
        &&& self.hashes().wf()
        &&& hash_keys(self.hashes().entries())
        &&& self.my_ips().wf()
    }

    /// Whether all but what concerns one torrent is as in `other`.
    pub open spec fn same_but(&self, other: &Downloader, hash: InfoHash) -> bool {
        &&& self.my_ips() == other.my_ips()
        &&& self.spec_peer_id() == other.spec_peer_id()
        &&& self.hashes().limit() == other.hashes().limit()
        &&& forall|h: InfoHash|
            #![trigger self.workers().dom().contains(h)]
            #![trigger other.workers().dom().contains(h)]
            h != hash ==> {
                &&& self.workers().dom().contains(h) == other.workers().dom().contains(h)
                &&& self.workers()[h] == other.workers()[h]
            }
    }

    /// No downloads.
    pub fn new(peer_id: PeerId) -> (r: Downloader)
        ensures
            r.wf(),
            r.workers() == Map::<InfoHash, Worker>::empty(),
            r.hashes().entries() == Seq::<(Seq<u8>, Option<u64>)>::empty(),
            r.hashes().limit() == HASHES_LIMIT,
            r.my_ips().entries() == Seq::<(Seq<u8>, Option<u64>)>::empty(),
            r.my_ips().limit() == MY_IPS_LIMIT,
            r.spec_peer_id() == peer_id,
    {
        Downloader {
            workers: AssocMap::new(),
            hashes: RecentKeys::new(HASHES_LIMIT),
            my_ips: RecentKeys::new(MY_IPS_LIMIT),
            peer_id,
        }
    }

    /// The identifier of this peer.
    pub fn peer_id(&self) -> (r: PeerId)
        ensures
            r == self.spec_peer_id(),
    {
        self.peer_id
    }

    /// Whether an address is one of this host, as far as peers have said.
    pub fn is_self_ip(&self, addr: &SocketAddr) -> (r: bool)
        ensures
            r == lookup(self.my_ips().entries(), ip_key(addr.spec_ip())) is Some,
    {
        self.my_ips.contains(encode_your_ip(&addr.ip()).as_slice())
    }

    /// Keeps the address that a peer sees this host at.
    pub fn add_self_ip(&mut self, ip: &IpAddr)
        requires
            old(self).wf(),
        ensures
            final(self).wf(),
            final(self).my_ips().entries() == put_front(
                old(self).my_ips().entries(),
                old(self).my_ips().limit(),
                ip_key(*ip),
                None,
            ),
            final(self).my_ips().limit() == old(self).my_ips().limit(),
            final(self).workers() == old(self).workers(),
            final(self).hashes() == old(self).hashes(),
            final(self).spec_peer_id() == old(self).spec_peer_id(),
    {
        self.my_ips.put(encode_your_ip(ip).as_slice(), None);
        assert(self.workers() == old(self).workers());
    }

    /// Adds a peer that has a torrent.
    pub fn add_peer(&mut self, hash: InfoHash, ip: SocketAddr) -> (r: PeerAdded)
        requires
            old(self).wf(),
        ensures
            final(self).wf(),
            final(self).same_but(old(self), hash),
            (queue_of(final(self).workers(), hash), r) == peer_added(
                old(self).my_ips().entries(),
                queue_of(old(self).workers(), hash),
                ip,
            ),
            old(self).workers().dom().contains(hash) ==> {
                let before = old(self).workers()[hash];
                let after = final(self).workers()[hash];
                &&& after.running() == before.running()
                &&& after.once_empty() == before.once_empty()
            },
            r == PeerAdded::Started ==> {
                let after = final(self).workers()[hash];
                &&& after.running() == 0
                &&& !after.once_empty()
            },
            final(self).hashes().entries() == (if r == PeerAdded::Own {
                old(self).hashes().entries()
            } else {
                put_front(
                    old(self).hashes().entries(),
                    old(self).hashes().limit(),
                    hash@,
                    None,
                )
            }),
    {
        if self.is_self_ip(&ip) {
            return PeerAdded::Own;
        }
        self.add_hash(hash);
        proof {
            lemma_id_eq();
        }
        match self.workers.remove(&hash) {
            Some(worker) => {
                let mut worker = worker;
                let sent: bool = worker.send(ip);
                self.workers.insert(hash, worker);
                if sent {
                    PeerAdded::Queued
                } else {
                    PeerAdded::Busy
                }
            },
            None => {
                self.workers.insert(hash, Worker::new(ip));
                PeerAdded::Started
            },
        }
    }

    /// Adds peers that have a torrent, one after the other.
    pub fn add_peers(&mut self, hash: InfoHash, peers: &Vec<SocketAddr>) -> (r: Vec<PeerAdded>)
        requires
            old(self).wf(),
        ensures
            final(self).wf(),
            final(self).same_but(old(self), hash),
            (queue_of(final(self).workers(), hash), r@) == peers_added(
                old(self).my_ips().entries(),
                queue_of(old(self).workers(), hash),
                peers@,
            ),
            final(self).hashes().entries() == (if all_own(
                old(self).my_ips().entries(),
                peers@,
            ) {
                old(self).hashes().entries()
            } else {
                put_front(
                    old(self).hashes().entries(),
                    old(self).hashes().limit(),
                    hash@,
                    None,
                )
            }),
    {
        let mut r: Vec<PeerAdded> = Vec::new();
        let mut i: usize = 0;
        let ghost ips = self.my_ips().entries();
        let ghost hashes = self.hashes().entries();
        let ghost limit = self.hashes().limit();
        assert(peers@.take(0) =~= seq![]);
        assert(r@ =~= seq![]);
        while i < peers.len()
            invariant
                self.wf(),
                i <= peers@.len(),
                self.same_but(old(self), hash),
                ips == old(self).my_ips().entries(),
                hashes == old(self).hashes().entries(),
                limit == old(self).hashes().limit(),
                distinct_keys(hashes),
                0 < limit,
                hashes.len() <= limit,
                (queue_of(self.workers(), hash), r@) == peers_added(
                    ips,
                    queue_of(old(self).workers(), hash),
                    peers@.take(i as int),
                ),
                self.hashes().entries() == (if all_own(ips, peers@.take(i as int)) {
                    hashes
                } else {
                    put_front(hashes, limit, hash@, None)
                }),
            decreases peers@.len() - i,
        {
            let ghost before = *self;
            let added = self.add_peer(hash, peers[i]);
            r.push(added);
            proof {
                let s = peers@.take(i as int);
                let t = peers@.take(i + 1);
                assert(t.drop_last() =~= s);
                assert forall|other: InfoHash|
                    #![trigger self.workers().dom().contains(other)]
                    other != hash implies self.workers().dom().contains(other)
                    == old(self).workers().dom().contains(other) && self.workers()[other]
                    == old(self).workers()[other] by {
                    assert(before.workers().dom().contains(other) == old(
                        self,
                    ).workers().dom().contains(other));
                }
                if own(ips, peers@[i as int]) {
                    if all_own(ips, s) {
                        assert forall|k: int| 0 <= k < t.len() implies own(
                            ips,
                            #[trigger] t[k],
                        ) by {
                            if k < i {
                                assert(s[k] == t[k]);
                            }
                        }
                    } else {
                        let k = choose|k: int| 0 <= k < s.len() && !own(ips, #[trigger] s[k]);
                        assert(t[k] == s[k]);
                    }
                } else {
                    assert(t[i as int] == peers@[i as int]);
                    if !all_own(ips, s) {
                        law_put_front(hashes, limit, hash@, None, hash@);
                        lemma_put_again(hashes, limit, hash@, None);
                    }
                }
            }
            i += 1;
        }
        assert(peers@.take(i as int) =~= peers@);
        r
    }

    /// What the worker of a torrent does next; nothing where there is no worker.
    pub fn worker_next(&mut self, hash: InfoHash) -> (r: Option<WorkerAction>)
        requires
            old(self).wf(),
        ensures
            final(self).wf(),
            final(self).hashes() == old(self).hashes(),
            final(self).my_ips() == old(self).my_ips(),
            final(self).spec_peer_id() == old(self).spec_peer_id(),
            final(self).workers().dom() == old(self).workers().dom(),
            forall|other: InfoHash|
                other != hash && #[trigger] old(self).workers().dom().contains(other)
                    ==> final(self).workers()[other] == old(self).workers()[other],
            r is Some == old(self).workers().dom().contains(hash),
            r matches Some(action) ==> {
                let before = old(self).workers()[hash];
                let after = final(self).workers()[hash];
                if before.running() < MAX_CONCURRENT && before.queue().len() > 0 {
                    &&& action == WorkerAction::Start(before.queue()[0])
                    &&& after.queue() == before.queue().skip(1)
                    &&& after.running() == before.running() + 1
                    &&& !after.once_empty()
                } else if before.running() > 0 {
                    action == WorkerAction::Wait && after == before
                } else if before.once_empty() {
                    action == WorkerAction::Exit && after == before
                } else {
                    &&& action == WorkerAction::Sleep
                    &&& after.queue() == before.queue()
                    &&& after.running() == 0
                    &&& after.once_empty()
                }
            },
    {
        proof {
            lemma_id_eq();
        }
        match self.workers.remove(&hash) {
            Some(worker) => {
                let mut worker = worker;
                let action = worker.next();
                self.workers.insert(hash, worker);
                assert(self.workers().dom() =~= old(self).workers().dom());
                Some(action)
            },
            None => {
                assert(self.workers() =~= old(self).workers());
                None
            },
        }
    }

    /// Takes note that a download of the worker of a torrent ended; the result is the
    /// metadata to hand on, with which the worker ends.
    pub fn worker_finished(
        &mut self,
        hash: InfoHash,
        result: Option<Result<Vec<u8>, BtError>>,
    ) -> (r: Option<Vec<u8>>)
        requires
            old(self).wf(),
        ensures
            final(self).wf(),
            final(self).hashes() == old(self).hashes(),
            final(self).my_ips() == old(self).my_ips(),
            final(self).spec_peer_id() == old(self).spec_peer_id(),
            final(self).workers().dom() == old(self).workers().dom(),
            forall|other: InfoHash|
                other != hash && #[trigger] old(self).workers().dom().contains(other)
                    ==> final(self).workers()[other] == old(self).workers()[other],
            if old(self).workers().dom().contains(hash) && old(self).workers()[hash].running()
                > 0 {
                let before = old(self).workers()[hash];
                let after = final(self).workers()[hash];
                &&& after.queue() == before.queue()
                &&& after.running() == before.running() - 1
                &&& after.once_empty() == before.once_empty()
                &&& r == (match result {
                    Some(Ok(data)) => Some(data),
                    _ => None,
                })
            } else {
                r is None && final(self).workers() == old(self).workers()
            },
    {
        proof {
            lemma_id_eq();
        }
        match self.workers.remove(&hash) {
            Some(worker) => {
                let mut worker = worker;
                assert(old(self).workers().dom().contains(hash));
                let mut r: Option<Vec<u8>> = None;
                if worker.running > 0 {
                    r = worker.finished(result);
                }
                self.workers.insert(hash, worker);
                assert(self.workers().dom() =~= old(self).workers().dom());
                assert(old(self).workers()[hash].running() == 0 ==> self.workers()
                    =~= old(self).workers());
                r
            },
            None => {
                assert(self.workers() =~= old(self).workers());
                None
            },
        }
    }

    /// Lets peers be expected for a hash.
    pub fn add_hash(&mut self, hash: InfoHash)
        requires
            old(self).wf(),
        ensures
            final(self).wf(),
            final(self).hashes().entries() == put_front(
                old(self).hashes().entries(),
                old(self).hashes().limit(),
                hash@,
                None,
            ),
            final(self).hashes().limit() == old(self).hashes().limit(),
            final(self).workers() == old(self).workers(),
            final(self).my_ips() == old(self).my_ips(),
            final(self).spec_peer_id() == old(self).spec_peer_id(),
    {
        proof {
            lemma_hash_keys(self.hashes().entries(), self.hashes().limit(), hash@);
        }
        self.hashes.put(hash.as_slice(), None);
        assert(self.workers() == old(self).workers());
    }

    /// The hashes for which peers are expected, with the newest in front.
    pub fn collect_hashes(&self) -> (r: Vec<InfoHash>)
        requires
            self.wf(),
        ensures
            r@.len() == self.hashes().entries().len(),
            forall|i: int|
                0 <= i < r@.len() ==> (#[trigger] r@[i])@ == self.hashes().entries()[i].0,
    {
        let keys = self.hashes.keys();
        let mut r: Vec<InfoHash> = Vec::new();
        let mut i: usize = 0;
        while i < keys.len()
            invariant
                self.wf(),
                i <= keys@.len(),
                keys@.len() == self.hashes.entries().len(),
                forall|j: int|
                    0 <= j < keys@.len() ==> (#[trigger] keys@[j])@
                        == self.hashes.entries()[j].0,
                r@.len() == i,
                forall|j: int| 0 <= j < i ==> (#[trigger] r@[j])@ == self.hashes.entries()[j].0,
            decreases keys@.len() - i,
        {
            assert(self.hashes().entries()[i as int].0.len() == 20);
            match NodeId::from_slice(keys[i].as_slice()) {
                Some(hash) => {
                    r.push(hash);
                },
                None => {
                    assert(false);
                },
            }
            i += 1;
        }
        r
    }

    /// Gives up a download; the result is whether a worker is to be stopped.
    pub fn cancel(&mut self, hash: InfoHash) -> (r: bool)
        requires
            old(self).wf(),
        ensures
            final(self).wf(),
            r == old(self).workers().dom().contains(hash),
            final(self).workers() == old(self).workers().remove(hash),
            final(self).hashes().entries() == without(old(self).hashes().entries(), hash@),
            lookup(final(self).hashes().entries(), hash@) is None,
            final(self).hashes().limit() == old(self).hashes().limit(),
            final(self).my_ips() == old(self).my_ips(),
            final(self).spec_peer_id() == old(self).spec_peer_id(),
    {
        proof {
            lemma_id_eq();
        }
        let worker = self.workers.remove(&hash);
        proof {
            lemma_hash_keys(self.hashes().entries(), self.hashes().limit(), hash@);
        }
        self.hashes.pop(hash.as_slice());
        proof {
            assert forall|other: InfoHash| #[trigger]
                self.workers().dom().contains(other) implies self.workers()[other].wf() by {
                assert(old(self).workers().dom().contains(other));
            }
        }
        worker.is_some()
    }
}

/// This side exchanges metadata under the number one, says what it is, and tells a peer the
/// address that it sees it at.
pub proof fn law_own_extensions(ip: IpAddr)
    ensures
        extension_number(Some(own_extensions(ip)), text("ut_metadata")) == Some(1u8),
        str_field(own_extensions(ip), text("v")) == Some(text("DHT Indexer")),
        told_ip(Some(own_extensions(ip))) == Some(ip),
{
    reveal_strlit("m");
    reveal_strlit("v");
    reveal_strlit("yourip");
    assert("m".is_ascii());
    assert("v".is_ascii());
    assert("yourip".is_ascii());
    assert(text("m").len() == 1 && text("m")[0] == 109);
    assert(text("v").len() == 1 && text("v")[0] == 118);
    assert(text("yourip").len() == 6);
    let none = no_entries();
    let m = dict_insert(none, text("ut_metadata"), Value::Int(1));
    let d = dict_insert(none, text("m"), Value::Dict(m));
    let e = dict_insert(d, text("v"), Value::Str(text("DHT Indexer")));
    crate::krpc::messages::lemma_inserted(none, text("ut_metadata"), Value::Int(1));
    crate::krpc::messages::lemma_inserted(none, text("m"), Value::Dict(m));
    crate::krpc::messages::lemma_inserted(d, text("v"), Value::Str(text("DHT Indexer")));
    crate::krpc::messages::lemma_inserted(e, text("yourip"), Value::Str(compact_your_ip(ip)));
    law_compact_your_ip_round_trip(ip);
}

/// How large the metadata is stands under `metadata_size`, where it is not negative.
pub proof fn law_told_size(v: Value)
    ensures
        match crate::bencode::fields::int_field(v, text("metadata_size")) {
            Some(size) if size >= 0 => told_size(Some(v)) matches Some(n) && n == size,
            _ => told_size(Some(v)) is None,
        },
        told_size(None) is None,
{
}

/// As many pieces of 16 kibibytes are asked for as hold all of the metadata, and not one more.
pub proof fn law_piece_count(size: int)
    requires
        size >= 0,
    ensures
        piece_count(size) * 16384 >= size,
        piece_count(size) > 0 ==> (piece_count(size) - 1) * 16384 < size,
        piece_count(size) == 0 <==> size == 0,
{
}

/// The piece that was asked for is taken, and the refusal to send it is one; the answer for
/// another piece is wrong, and so are requests. What is no message on metadata is of no use.
pub proof fn law_received(p: Progress, piece: u64, total_size: u64, payload: Seq<u8>, msg: Value, id: u8)
    ensures
        ({
            let data = metadata_value(UtMetadataMessage::Data { piece, total_size });
            let reject = metadata_value(UtMetadataMessage::Reject { piece });
            let request = metadata_value(UtMetadataMessage::Request { piece });
            let told = |msg: Value| received(p, Wire::Extended { id: p.local_id, msg, payload });
            &&& piece == p.piece ==> told(data) == Received::Piece(payload)
            &&& piece == p.piece ==> told(reject) is Rejected
            &&& piece != p.piece ==> told(data) is Invalid && told(reject) is Invalid
            &&& told(request) is Invalid
            &&& metadata_of(msg) is None ==> told(msg) is Invalid
        }),
        id != p.local_id ==> received(p, Wire::Extended { id, msg, payload }) is Other,
        received(p, Wire::Choke) is Other,
        received(p, Wire::Unchoke) is Other,
        received(p, Wire::Interested) is Other,
        received(p, Wire::NotInterested) is Other,
        received(p, Wire::Bitfield { data: payload }) is Other,
{
    law_metadata_round_trip(UtMetadataMessage::Data { piece, total_size });
    law_metadata_round_trip(UtMetadataMessage::Reject { piece });
    law_metadata_round_trip(UtMetadataMessage::Request { piece });
}

/// A piece that is taken is put behind what has come, and the next is asked for; what is of
/// no use changes nothing, and a wrong message or a refusal ends the download.
pub proof fn law_progress(p: Progress, messages: Seq<Wire>, m: Wire)
    ensures
        progress_after(p, Seq::empty()) == Some(p),
        progress_after(p, messages) is None ==> progress_after(p, messages.push(m)) is None,
        progress_after(p, messages) matches Some(q) ==> match received(q, m) {
            Received::Other => progress_after(p, messages.push(m)) == Some(q),
            Received::Piece(payload) => progress_after(p, messages.push(m)) matches Some(r)
                && r.data == q.data + payload && (q.piece < u64::MAX ==> r.piece == q.piece + 1)
                && r.pieces == q.pieces && r.hash == q.hash && r.local_id == q.local_id
                && r.peer_id == q.peer_id,
            _ => progress_after(p, messages.push(m)) is None,
        },
{
    assert(messages.push(m).drop_last() =~= messages);
}

/// A peer at an address of this host is left out. The first other one starts a worker, and
/// those after it wait for that worker in their order, while fewer than a hundred do.
pub proof fn law_peer_added(
    ips: Seq<(Seq<u8>, Option<u64>)>,
    queue: Option<Seq<SocketAddr>>,
    peer: SocketAddr,
)
    ensures
        ({
            let (after, what) = peer_added(ips, queue, peer);
            &&& what == PeerAdded::Own <==> own(ips, peer)
            &&& what == PeerAdded::Started <==> !own(ips, peer) && queue is None
            &&& what == PeerAdded::Queued <==> !own(ips, peer) && (queue matches Some(q) && q.len()
                < 100)
            &&& what == PeerAdded::Started ==> after == Some(seq![peer])
            &&& what == PeerAdded::Queued ==> (queue matches Some(q) && after == Some(q.push(peer)))
            &&& what == PeerAdded::Own || what == PeerAdded::Busy ==> after == queue
        }),
{
}

/// Peers that are added in two lists are added as in one, and there is an answer for each.
pub proof fn law_peers_added(
    ips: Seq<(Seq<u8>, Option<u64>)>,
    queue: Option<Seq<SocketAddr>>,
    peers: Seq<SocketAddr>,
    more: Seq<SocketAddr>,
    peer: SocketAddr,
)
    ensures
        peers_added(ips, queue, Seq::empty()) == (queue, Seq::<PeerAdded>::empty()),
        peers_added(ips, queue, seq![peer]) == (
            peer_added(ips, queue, peer).0,
            seq![peer_added(ips, queue, peer).1],
        ),
        peers_added(ips, queue, peers).1.len() == peers.len(),
        ({
            let (middle, first) = peers_added(ips, queue, peers);
            let (after, then) = peers_added(ips, middle, more);
            peers_added(ips, queue, peers + more) == (after, first + then)
        }),
    decreases peers.len() + more.len(),
{
    let none = Seq::<SocketAddr>::empty();
    let one = seq![peer];
    assert(one.drop_last() =~= none);
    assert(peers_added(ips, queue, none).1 =~= Seq::<PeerAdded>::empty());
    assert(peers_added(ips, queue, one).1 =~= seq![peer_added(ips, queue, peer).1]);
    let (middle, first) = peers_added(ips, queue, peers);
    if peers.len() > 0 && more.len() == 0 {
        law_peers_added(ips, queue, peers.drop_last(), more, peer);
    }
    if more.len() == 0 {
        assert(peers + more =~= peers);
        assert(first + Seq::<PeerAdded>::empty() =~= first);
    } else {
        law_peers_added(ips, queue, peers, more.drop_last(), peer);
        assert((peers + more).drop_last() =~= peers + more.drop_last());
        let (before, then) = peers_added(ips, middle, more.drop_last());
        let (after, last) = peer_added(ips, before, more.last());
        assert(first + then.push(last) =~= (first + then).push(last));
    }
}

/// An address that is kept as one of this host is one with every port, and others stay as
/// they were while there is room.
pub proof fn law_own(
    ips: Seq<(Seq<u8>, Option<u64>)>,
    limit: nat,
    addr: SocketAddr,
    other: SocketAddr,
)
    requires
        distinct_keys(ips),
        0 < limit,
        ips.len() <= limit,
    ensures
        ({
            let after = put_front(ips, limit, ip_key(addr.spec_ip()), None);
            &&& other.spec_ip() == addr.spec_ip() ==> own(after, other)
            &&& other.spec_ip() != addr.spec_ip() && ips.len() < limit ==> own(after, other) == own(
                ips,
                other,
            )
        }),
{
    law_put_front(ips, limit, ip_key(addr.spec_ip()), None, ip_key(other.spec_ip()));
    law_compact_your_ip_round_trip(addr.spec_ip());
    law_compact_your_ip_round_trip(other.spec_ip());
}

} // verus!
