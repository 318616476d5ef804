//! The crawler, which collects the hashes of torrents and downloads their metadata.

use super::downloader::{
    all_own, law_peers_added, peer_added, peers_added, queue_of, Downloader, PeerAdded, Worker,
};
use super::peer_finder::{PeerFinder, PeerFinderConfig};
use super::recent::{distinct_keys, law_put_front, lookup, put_front, RecentKeys, MAX_LIMIT};
use super::sampler::{addr_key, Sampler};
use crate::bt::bt_stream::PeerId;
use crate::bt::tracker_manager::{list_added, TrackerManager};
use crate::bencode::value::{encode, Value};
use crate::bytes::{
    big_endian, big_endian_bytes, lemma_big_endian_4, lemma_big_endian_bytes_len,
    lemma_big_endian_round_trip, read_u32, text,
};
use crate::dht::session::DhtSession;
use crate::kad::addr::SocketAddr;
use crate::kad::nodeid::{InfoHash, NodeId};
use crate::krpc::context::KrpcContext;
use crate::random::random_u8;
use vstd::prelude::*;

verus! {

/// With more torrents than that no nodes are sampled any more.
pub const TOO_MANY_TASKS: usize = 1000;

/// With fewer torrents than that nodes are sampled again.
pub const FEW_TASKS: usize = 20;

/// The peers of how many torrents are looked for at once.
pub const MAX_SEARCHES: usize = 20;

/// How often the peers of a torrent are looked for.
pub const SEARCH_RETRIES: usize = 2;

/// What uses the crawler.
pub trait CrawlerController {
    /// A hash was found; it may have been found before.
    fn on_info_hash_found(&self, hash: InfoHash);

    /// Metadata was downloaded.
    fn on_metadata_downloaded(&self, hash: InfoHash, data: Vec<u8>);

    /// There is something to show to the user.
    fn on_message(&self, message: String);

    /// Whether there is metadata for a hash.
    fn has_metadata(&self, hash: InfoHash) -> (r: bool);
}

/// How the crawler is set up.
#[derive(Debug)]
pub struct CrawlerConfig {
    pub id: NodeId,
    /// The address to which the sockets are bound.
    pub ip: SocketAddr,
    /// How many hashes are kept as found.
    pub hash_lru_cache_size: usize,
    pub trackers: Vec<String>,
}

/// What there is to tell of the number of torrents.
#[derive(Debug, Clone, Copy, PartialEq, Eq, Structural)]
pub enum Notice {
    TooMany,
    Normal,
}

impl Notice {
    /// What there is to tell, in words.
    pub open spec fn words(self) -> Seq<char> {
        match self {
            Notice::TooMany => "Too many hash, auto sample is disabled"@,
            Notice::Normal => "Hash count is normal, auto sample is enabled"@,
        }
    }

    /// What there is to tell, in words.
    pub fn text(&self) -> (r: &'static str)
        ensures
            r@ == self.words(),
    {
        match *self {
            Notice::TooMany => "Too many hash, auto sample is disabled",
            Notice::Normal => "Hash count is normal, auto sample is enabled",
        }
    }
}

/// What became of a hash.
#[derive(Debug, Clone, Copy, PartialEq, Eq, Structural)]
pub struct HashOutcome {
    /// It is new.
    pub found: bool,
    /// A search for its peers is to be started.
    pub search: bool,
    pub notice: Option<Notice>,
}

/// What a packet may be.
#[derive(Debug, Clone, Copy, PartialEq, Eq, Structural)]
pub enum PacketKind {
    Krpc,
    Tracker,
    Utp,
}

/// Whether a packet may be one of the DHT: a dictionary.
pub open spec fn may_be_krpc(data: Seq<u8>) -> bool {
    data.len() > 0 && data[0] == 'd' as u8
}

/// Whether a packet may be from a tracker: it starts with one of the actions.
pub open spec fn may_be_tracker(data: Seq<u8>) -> bool {
    data.len() >= 8 && crate::bytes::big_endian(data.subrange(0, 4)) < 4
}

/// What a packet may be, in the order in which it is tried.
pub fn packet_kinds(data: &[u8]) -> (r: Vec<PacketKind>)
    ensures
        r@ == (if data@.len() == 0 {
            seq![]
        } else {
            (if may_be_krpc(data@) {
                seq![PacketKind::Krpc]
            } else {
                seq![]
            }) + (if may_be_tracker(data@) {
                seq![PacketKind::Tracker]
            } else {
                seq![]
            }) + seq![PacketKind::Utp]
        }),
{
    let mut r: Vec<PacketKind> = Vec::new();
    if data.len() == 0 {
        assert(r@ =~= seq![]);
        return r;
    }
    if data[0] == 'd' as u8 {
        r.push(PacketKind::Krpc);
    }
    if data.len() >= 8 {
        let action: u32 = read_u32(data, 0);
        if action < 4 {
            r.push(PacketKind::Tracker);
        }
    }
    r.push(PacketKind::Utp);
    assert(r@ =~= (if may_be_krpc(data@) {
        seq![PacketKind::Krpc]
    } else {
        seq![]
    }) + (if may_be_tracker(data@) {
        seq![PacketKind::Tracker]
    } else {
        seq![]
    }) + seq![PacketKind::Utp]);
    r
}

/// A random identifier that starts with the name and the version of this client.
pub fn make_peer_id() -> (r: PeerId)
    ensures
        r@.take(6) == text("DI0001"),
{
    let mut id: [u8; 20] = [0u8;20];
    let prefix: &[u8] = "DI0001".as_bytes();
    proof {
        reveal_strlit("DI0001");
        assert("DI0001".is_ascii());
    }
    let mut i: usize = 0;
    while i < 20
        invariant
            i <= 20,
            prefix@ == text("DI0001"),
            prefix@.len() == 6,
            forall|j: int| 0 <= j < i && j < 6 ==> id@[j] == prefix@[j],
        decreases 20 - i,
    {
        if i < 6 {
            id[i] = prefix[i];
        } else {
            id[i] = random_u8();
        }
        i += 1;
    }
    assert(id@.take(6) =~= prefix@);
    PeerId::from(id)
}

/// Whether there are too many torrents, after their number changed, and what there is to
/// tell: nothing changes between the two limits.
pub open spec fn tasks_changed(too_many: bool, count: int) -> (bool, Option<Notice>) {
    let after = if count > TOO_MANY_TASKS {
        true
    } else if count < FEW_TASKS {
        false
    } else {
        too_many
    };
    (
        after,
        if after == too_many {
            None
        } else if after {
            Some(Notice::TooMany)
        } else {
            Some(Notice::Normal)
        },
    )
}

/// The crawler.
pub struct Crawler {
    pub session: DhtSession,
    pub downloader: Downloader,
    pub peer_finder: PeerFinder,
    pub sampler: Sampler,
    pub trackers: TrackerManager,
    /// The hashes that were found of late.
    pub hash_lru: RecentKeys,
    /// Whether nodes that ask something are sampled.
    pub auto_sample: bool,
    /// Whether the peers of too many torrents are looked for.
    pub too_many_hash: bool,
}

/// What the crawler keeps of the hashes: those for whose peers it looks, those that it
/// found with how many can be kept, and whether there are too many.
pub struct HashState {
    pub pending: Seq<InfoHash>,
    pub found: Seq<(Seq<u8>, Option<u64>)>,
    pub limit: nat,
    pub too_many: bool,
}

/// What becomes of a hash for whose peers the crawler is to look.
pub open spec fn hash_added(s: HashState, hash: InfoHash) -> (HashState, HashOutcome) {
    if s.pending.contains(hash) {
        (s, HashOutcome { found: false, search: false, notice: None })
    } else {
        let pending = s.pending.push(hash);
        let (too_many, notice) = tasks_changed(s.too_many, pending.len() as int);
        (
            HashState { pending, too_many, ..s },
            HashOutcome { found: false, search: true, notice },
        )
    }
}

/// What becomes of a hash for which there is no metadata: where it was not found of late,
/// the crawler looks for its peers.
pub open spec fn hash_found(s: HashState, hash: InfoHash) -> (HashState, HashOutcome) {
    let kept = HashState { found: put_front(s.found, s.limit, hash@, None), ..s };
    if lookup(s.found, hash@) is Some {
        (kept, HashOutcome { found: false, search: false, notice: None })
    } else {
        let (after, outcome) = hash_added(kept, hash);
        (after, HashOutcome { found: true, ..outcome })
    }
}

impl Crawler {
    /// What the crawler keeps of the hashes.
    pub open spec fn hashes(&self) -> HashState {
        HashState {
            pending: self.peer_finder.pending(),
            found: self.hash_lru.entries(),
            limit: self.hash_lru.limit(),
            too_many: self.too_many_hash,
        }
    }

    /// Whether all parts are well-formed.
    pub open spec fn wf(&self) -> bool {
        &&& self.session.wf()
        &&& self.downloader.wf()
        &&& self.peer_finder.wf()
        &&& self.sampler.wf()
        &&& self.trackers.wf()
        &&& self.hash_lru.wf()
    }

    /// Whether all but what is kept of the hashes, and the downloads, is as in `other`.
    pub open spec fn same_but_hashes(&self, other: &Crawler) -> bool {
        &&& self.session == other.session
        &&& self.sampler == other.sampler
        &&& self.trackers == other.trackers
        &&& self.peer_finder.spec_config() == other.peer_finder.spec_config()
        &&& self.auto_sample == other.auto_sample
    }

    /// A crawler that knows nothing yet but its trackers.
    pub fn new(config: &CrawlerConfig) -> (r: Crawler)
        requires
            0 < config.hash_lru_cache_size <= MAX_LIMIT,
        ensures
            r.wf(),
            r.session@.id == config.id,
            r.session@.ipv4 == config.ip is V4,
            r.session@.pending == Set::<u16>::empty(),
            r.session@.next_tid == 0,
            r.session@.peers == Map::<InfoHash, Seq<SocketAddr>>::empty(),
            r.session@.table.id == config.id,
            r.session@.table.ips == Set::<SocketAddr>::empty(),
            r.session@.table.routers == Set::<SocketAddr>::empty(),
            r.session@.table.buckets.len() == 1,
            r.session@.table.buckets[0].nodes.len() == 0,
            r.downloader.workers() == Map::<InfoHash, Worker>::empty(),
            r.downloader.hashes().entries() == Seq::<(Seq<u8>, Option<u64>)>::empty(),
            r.downloader.my_ips().entries() == Seq::<(Seq<u8>, Option<u64>)>::empty(),
            r.downloader.spec_peer_id()@.take(6) == text("DI0001"),
            r.peer_finder.spec_config() == (PeerFinderConfig {
                max_concurrent: MAX_SEARCHES,
                max_retries: SEARCH_RETRIES,
                bind_ip: config.ip,
                peer_id: r.downloader.spec_peer_id(),
            }),
            r.sampler.sampled().entries() == Seq::<(Seq<u8>, Option<u64>)>::empty(),
            r.trackers.urls() == list_added(seq![], config.trackers@).0,
            r.hashes() == (HashState {
                pending: seq![],
                found: seq![],
                limit: config.hash_lru_cache_size as nat,
                too_many: false,
            }),
            !r.auto_sample,
    {
        let peer_id = make_peer_id();
        let mut trackers = TrackerManager::new();
        assert(trackers.urls() =~= seq![]);
        trackers.add_tracker_list(config.trackers.as_slice());
        let r = Crawler {
            session: DhtSession::new(config.id, KrpcContext::new(config.ip.is_ipv4())),
            downloader: Downloader::new(peer_id),
            peer_finder: PeerFinder::new(
                PeerFinderConfig {
                    max_concurrent: MAX_SEARCHES,
                    max_retries: SEARCH_RETRIES,
                    bind_ip: config.ip,
                    peer_id,
                },
            ),
            sampler: Sampler::new(),
            trackers,
            hash_lru: RecentKeys::new(config.hash_lru_cache_size),
            auto_sample: false,
            too_many_hash: false,
        };
        assert(r.hashes().pending =~= seq![]);
        assert(r.hashes().found =~= seq![]);
        r
    }

    /// The node of the DHT.
    pub fn dht_session(&self) -> (r: &DhtSession)
        ensures
            *r == self.session,
    {
        &self.session
    }

    /// Whether nodes that ask something are sampled.
    pub fn auto_sample(&self) -> (r: bool)
        ensures
            r == self.auto_sample,
    {
        self.auto_sample
    }

    /// Sets whether nodes that ask something are sampled; the result is whether they were.
    pub fn set_auto_sample(&mut self, enable: bool) -> (r: bool)
        requires
            old(self).wf(),
        ensures
            final(self).wf(),
            r == old(self).auto_sample,
            final(self).auto_sample == enable,
            final(self).hashes() == old(self).hashes(),
            final(self).session == old(self).session,
            final(self).downloader == old(self).downloader,
            final(self).peer_finder == old(self).peer_finder,
            final(self).sampler == old(self).sampler,
            final(self).trackers == old(self).trackers,
    {
        let before: bool = self.auto_sample;
        self.auto_sample = enable;
        before
    }

    /// Takes note that the number of torrents whose peers are looked for changed.
    pub fn on_tasks_count_changed(&mut self, count: usize) -> (r: Option<Notice>)
        requires
            old(self).wf(),
        ensures
            final(self).wf(),
            (final(self).hashes().too_many, r) == tasks_changed(
                old(self).hashes().too_many,
                count as int,
            ),
            final(self).hashes() == (HashState {
                too_many: final(self).hashes().too_many,
                ..old(self).hashes()
            }),
            final(self).peer_finder == old(self).peer_finder,
            final(self).downloader == old(self).downloader,
            final(self).same_but_hashes(old(self)),
    {
        let new: bool = if count > TOO_MANY_TASKS {
            true
        } else if count < FEW_TASKS {
            false
        } else {
            return None;
        };
        let before: bool = self.too_many_hash;
        self.too_many_hash = new;
        if before == new {
            return None;
        }
        if new {
            Some(Notice::TooMany)
        } else {
            Some(Notice::Normal)
        }
    }

    /// Looks for the peers of a torrent.
    pub fn add_hash(&mut self, info_hash: InfoHash) -> (r: HashOutcome)
        requires
            old(self).wf(),
        ensures
            final(self).wf(),
            (final(self).hashes(), r) == hash_added(old(self).hashes(), info_hash),
            final(self).downloader == old(self).downloader,
            final(self).same_but_hashes(old(self)),
    {
        match self.peer_finder.add_hash(info_hash) {
            Some(count) => {
                let notice = self.on_tasks_count_changed(count);
                HashOutcome { found: false, search: true, notice }
            },
            None => HashOutcome { found: false, search: false, notice: None },
        }
    }

    /// Keeps a hash as found; the result is whether it was not found of late.
    pub fn check_hash_lru(&mut self, hash: InfoHash) -> (r: bool)
        requires
            old(self).wf(),
        ensures
            final(self).wf(),
            r == lookup(old(self).hashes().found, hash@) is None,
            final(self).hashes() == (HashState {
                found: put_front(old(self).hashes().found, old(self).hashes().limit, hash@, None),
                ..old(self).hashes()
            }),
            final(self).peer_finder == old(self).peer_finder,
            final(self).downloader == old(self).downloader,
            final(self).same_but_hashes(old(self)),
    {
        self.hash_lru.put(hash.as_slice(), None).is_none()
    }

    /// Keeps a hash for which there is no metadata, and looks for its peers where it was
    /// not found of late.
    fn found_hash(&mut self, hash: InfoHash) -> (r: HashOutcome)
        requires
            old(self).wf(),
        ensures
            final(self).wf(),
            (final(self).hashes(), r) == hash_found(old(self).hashes(), hash),
            final(self).downloader == old(self).downloader,
            final(self).same_but_hashes(old(self)),
    {
        if !self.check_hash_lru(hash) {
            return HashOutcome { found: false, search: false, notice: None };
        }
        let outcome = self.add_hash(hash);
        HashOutcome { found: true, search: outcome.search, notice: outcome.notice }
    }

    /// A peer said that it has a torrent, for which there is metadata or not; the result
    /// is what becomes of the hash and of the peer.
    pub fn peer_announced(&mut self, has_metadata: bool, hash: InfoHash, ip: SocketAddr) -> (r:
        Option<(HashOutcome, PeerAdded)>)
        requires
            old(self).wf(),
        ensures
            announce_handled(*old(self), *final(self), has_metadata, hash, ip, r),
    {
        if has_metadata {
            return None;
        }
        let outcome = self.found_hash(hash);
        let added = self.downloader.add_peer(hash, ip);
        Some((outcome, added))
    }

    /// A peer said that it has a torrent: asks the controller whether there is metadata
    /// for it, and tells the controller what is new.
    pub fn on_peer_announce<C: CrawlerController>(
        &mut self,
        controller: &C,
        hash: InfoHash,
        ip: SocketAddr,
    ) -> (r: Option<(HashOutcome, PeerAdded)>)
        requires
            old(self).wf(),
        ensures
            exists|has_metadata: bool|
                call_ensures(C::has_metadata, (controller, hash), has_metadata)
                    && #[trigger] announce_handled(
                    *old(self),
                    *final(self),
                    has_metadata,
                    hash,
                    ip,
                    r,
                ),
            r matches Some((outcome, _)) ==> told(controller, hash, outcome),
    {
        let has_metadata: bool = controller.has_metadata(hash);
        let r = self.peer_announced(has_metadata, hash, ip);
        if let Some((outcome, _)) = &r {
            tell(controller, hash, outcome);
        }
        r
    }

    /// A hash was sampled for which there is metadata or not; the result is what becomes
    /// of it. A peer may come for a hash that is new.
    pub fn hash_sampled(&mut self, has_metadata: bool, hash: InfoHash) -> (r: HashOutcome)
        requires
            old(self).wf(),
        ensures
            sample_handled(*old(self), *final(self), has_metadata, hash, r),
    {
        if has_metadata {
            return HashOutcome { found: false, search: false, notice: None };
        }
        let outcome = self.found_hash(hash);
        if outcome.found {
            self.downloader.add_hash(hash);
        }
        outcome
    }

    /// A hash was sampled: asks the controller whether there is metadata for it, and tells
    /// the controller what is new.
    pub fn on_hash_sampled<C: CrawlerController>(&mut self, controller: &C, hash: InfoHash) -> (r:
        HashOutcome)
        requires
            old(self).wf(),
        ensures
            exists|has_metadata: bool|
                call_ensures(C::has_metadata, (controller, hash), has_metadata)
                    && #[trigger] sample_handled(
                    *old(self),
                    *final(self),
                    has_metadata,
                    hash,
                    r,
                ),
            told(controller, hash, r),
    {
        let has_metadata: bool = controller.has_metadata(hash);
        let r = self.hash_sampled(has_metadata, hash);
        tell(controller, hash, &r);
        r
    }

    /// A node asked something at a time; the result is whether it is to be sampled.
    pub fn on_query(&mut self, ip: &SocketAddr, now: u64) -> (r: bool)
        requires
            old(self).wf(),
        ensures
            final(self).wf(),
            final(self).hashes() == old(self).hashes(),
            final(self).session == old(self).session,
            final(self).downloader == old(self).downloader,
            final(self).peer_finder == old(self).peer_finder,
            final(self).trackers == old(self).trackers,
            final(self).auto_sample == old(self).auto_sample,
            r == (old(self).auto_sample && !old(self).hashes().too_many && match lookup(
                old(self).sampler.sampled().entries(),
                addr_key(*ip),
            ) {
                Some(Some(time)) => time <= now,
                Some(None) => false,
                None => true,
            }),
            if old(self).auto_sample && !old(self).hashes().too_many {
                final(self).sampler.sampled().entries() == put_front(
                    old(self).sampler.sampled().entries(),
                    old(self).sampler.sampled().limit(),
                    addr_key(*ip),
                    if r {
                        None
                    } else {
                        lookup(old(self).sampler.sampled().entries(), addr_key(*ip))->Some_0
                    },
                )
            } else {
                final(self).sampler == old(self).sampler
            },
            final(self).sampler.sampled().limit() == old(self).sampler.sampled().limit(),
    {
        if !self.auto_sample {
            return false;
        }
        if self.too_many_hash {
            return false;
        }
        self.sampler.add_sample_node(ip, now)
    }

    /// Peers of a torrent were found, for which there is metadata or not; the result is
    /// what becomes of each.
    pub fn peers_found(&mut self, has_metadata: bool, hash: InfoHash, peers: &Vec<SocketAddr>) -> (r:
        Vec<PeerAdded>)
        requires
            old(self).wf(),
        ensures
            peers_handled(*old(self), *final(self), has_metadata, hash, peers@, r@),
    {
        if has_metadata {
            return Vec::new();
        }
        self.downloader.add_peers(hash, peers)
    }

    /// Peers of a torrent were found: asks the controller whether there is metadata for it;
    /// the result is what becomes of each.
    pub fn on_peers_found<C: CrawlerController>(
        &mut self,
        controller: &C,
        hash: InfoHash,
        peers: &Vec<SocketAddr>,
    ) -> (r: Vec<PeerAdded>)
        requires
            old(self).wf(),
        ensures
            exists|has_metadata: bool|
                call_ensures(C::has_metadata, (controller, hash), has_metadata)
                    && #[trigger] peers_handled(
                    *old(self),
                    *final(self),
                    has_metadata,
                    hash,
                    peers@,
                    r@,
                ),
    {
        let has_metadata: bool = controller.has_metadata(hash);
        self.peers_found(has_metadata, hash, peers)
    }

    /// Metadata was downloaded: its peers are looked for no more. The result is whether
    /// they were, so that the search is to be stopped, and what there is to tell.
    pub fn metadata_downloaded(&mut self, hash: InfoHash) -> (r: (bool, Option<Notice>))
        requires
            old(self).wf(),
        ensures
            final(self).wf(),
            final(self).downloader == old(self).downloader,
            final(self).same_but_hashes(old(self)),
            final(self).hashes().pending.to_set() == old(self).hashes().pending.to_set().remove(
                hash,
            ),
            final(self).hashes().found == old(self).hashes().found,
            final(self).hashes().limit == old(self).hashes().limit,
            r.0 == old(self).hashes().pending.contains(hash),
            (final(self).hashes().too_many, r.1) == downloaded_change(
                old(self).hashes(),
                final(self).hashes(),
                r.0,
            ),
    {
        match self.peer_finder.cancel(hash) {
            Some(count) => (true, self.on_tasks_count_changed(count)),
            None => (false, None),
        }
    }

    /// Metadata was downloaded: its peers are looked for no more, and the controller gets
    /// it.
    pub fn on_metadata_downloaded<C: CrawlerController>(
        &mut self,
        controller: &C,
        hash: InfoHash,
        data: Vec<u8>,
    ) -> (r: bool)
        requires
            old(self).wf(),
        ensures
            final(self).wf(),
            final(self).downloader == old(self).downloader,
            final(self).same_but_hashes(old(self)),
            final(self).hashes().pending.to_set() == old(self).hashes().pending.to_set().remove(
                hash,
            ),
            final(self).hashes().found == old(self).hashes().found,
            final(self).hashes().limit == old(self).hashes().limit,
            r == old(self).hashes().pending.contains(hash),
            final(self).hashes().too_many == downloaded_change(
                old(self).hashes(),
                final(self).hashes(),
                r,
            ).0,
            notice_told(
                controller,
                downloaded_change(old(self).hashes(), final(self).hashes(), r).1,
            ),
            call_ensures(C::on_metadata_downloaded, (controller, hash, data), ()),
    {
        let (searched, notice) = self.metadata_downloaded(hash);
        tell_notice(controller, notice);
        controller.on_metadata_downloaded(hash, data);
        searched
    }

    /// The search for the peers of a torrent ended; the result is what there is to tell.
    pub fn search_ended(&mut self, hash: InfoHash) -> (r: Option<Notice>)
        requires
            old(self).wf(),
        ensures
            final(self).wf(),
            final(self).downloader == old(self).downloader,
            final(self).same_but_hashes(old(self)),
            final(self).hashes().pending.to_set() == old(self).hashes().pending.to_set().remove(
                hash,
            ),
            final(self).hashes().found == old(self).hashes().found,
            final(self).hashes().limit == old(self).hashes().limit,
            (final(self).hashes().too_many, r) == tasks_changed(
                old(self).hashes().too_many,
                final(self).hashes().pending.len() as int,
            ),
    {
        let count: usize = self.peer_finder.finish(hash);
        self.on_tasks_count_changed(count)
    }
}

/// Whether there are too many torrents once metadata was downloaded, and what there is to
/// tell: something changes only where the peers were looked for.
pub open spec fn downloaded_change(before: HashState, after: HashState, searched: bool) -> (
    bool,
    Option<Notice>,
) {
    if searched {
        tasks_changed(before.too_many, after.pending.len() as int)
    } else {
        (before.too_many, None)
    }
}

/// Whether the controller was handed what there is to tell.
pub open spec fn notice_told<C: CrawlerController>(controller: &C, notice: Option<Notice>) -> bool {
    notice matches Some(n) ==> exists|message: String|
        message@ == n.words() && #[trigger] call_ensures(C::on_message, (controller, message), ())
}

/// Whether the controller was told what is new of a hash: that it was found, and what there
/// is to tell.
pub open spec fn told<C: CrawlerController>(
    controller: &C,
    hash: InfoHash,
    outcome: HashOutcome,
) -> bool {
    &&& outcome.found ==> call_ensures(C::on_info_hash_found, (controller, hash), ())
    &&& notice_told(controller, outcome.notice)
}

/// Hands the controller what there is to tell.
fn tell_notice<C: CrawlerController>(controller: &C, notice: Option<Notice>)
    ensures
        notice_told(controller, notice),
{
    if let Some(notice) = notice {
        controller.on_message(notice.text().to_owned());
    }
}

/// Tells the controller what is new of a hash.
fn tell<C: CrawlerController>(controller: &C, hash: InfoHash, outcome: &HashOutcome)
    ensures
        told(controller, hash, *outcome),
{
    if outcome.found {
        controller.on_info_hash_found(hash);
    }
    tell_notice(controller, outcome.notice);
}

/// What comes of a peer that said that it has a torrent: nothing where there is metadata;
/// else the hash is found, and the peer is one to download from.
pub open spec fn announce_handled(
    before: Crawler,
    after: Crawler,
    has_metadata: bool,
    hash: InfoHash,
    ip: SocketAddr,
    r: Option<(HashOutcome, PeerAdded)>,
) -> bool {
    &&& after.wf()
    &&& if has_metadata {
        r is None && after == before
    } else {
        &&& after.same_but_hashes(&before)
        &&& after.downloader.same_but(&before.downloader, hash)
        &&& r matches Some((outcome, added)) && {
            &&& (after.hashes(), outcome) == hash_found(before.hashes(), hash)
            &&& (queue_of(after.downloader.workers(), hash), added) == peer_added(
                before.downloader.my_ips().entries(),
                queue_of(before.downloader.workers(), hash),
                ip,
            )
            &&& after.downloader.hashes().entries() == (if added == PeerAdded::Own {
                before.downloader.hashes().entries()
            } else {
                put_front(
                    before.downloader.hashes().entries(),
                    before.downloader.hashes().limit(),
                    hash@,
                    None,
                )
            })
        }
    }
}

/// What comes of a hash that was sampled: nothing where there is metadata; else it is
/// found, and peers are expected for it where it is new.
pub open spec fn sample_handled(
    before: Crawler,
    after: Crawler,
    has_metadata: bool,
    hash: InfoHash,
    r: HashOutcome,
) -> bool {
    &&& after.wf()
    &&& if has_metadata {
        &&& r == (HashOutcome { found: false, search: false, notice: None })
        &&& after == before
    } else {
        &&& after.same_but_hashes(&before)
        &&& (after.hashes(), r) == hash_found(before.hashes(), hash)
        &&& after.downloader.workers() == before.downloader.workers()
        &&& after.downloader.my_ips() == before.downloader.my_ips()
        &&& after.downloader.spec_peer_id() == before.downloader.spec_peer_id()
        &&& after.downloader.hashes().limit() == before.downloader.hashes().limit()
        &&& after.downloader.hashes().entries() == (if r.found {
            put_front(
                before.downloader.hashes().entries(),
                before.downloader.hashes().limit(),
                hash@,
                None,
            )
        } else {
            before.downloader.hashes().entries()
        })
    }
}

/// What comes of peers of a torrent: nothing where there is metadata; else each is one to
/// download from.
pub open spec fn peers_handled(
    before: Crawler,
    after: Crawler,
    has_metadata: bool,
    hash: InfoHash,
    peers: Seq<SocketAddr>,
    r: Seq<PeerAdded>,
) -> bool {
    &&& after.wf()
    &&& after.hashes() == before.hashes()
    &&& after.peer_finder == before.peer_finder
    &&& after.same_but_hashes(&before)
    &&& if has_metadata {
        r == Seq::<PeerAdded>::empty() && after == before
    } else {
        &&& after.downloader.same_but(&before.downloader, hash)
        &&& (queue_of(after.downloader.workers(), hash), r) == peers_added(
            before.downloader.my_ips().entries(),
            queue_of(before.downloader.workers(), hash),
            peers,
        )
        &&& after.downloader.hashes().entries() == (if all_own(
            before.downloader.my_ips().entries(),
            peers,
        ) {
            before.downloader.hashes().entries()
        } else {
            put_front(
                before.downloader.hashes().entries(),
                before.downloader.hashes().limit(),
                hash@,
                None,
            )
        })
    }
}

/// A hash that was just found is not found again.
pub proof fn law_found_once(s: HashState, hash: InfoHash)
    requires
        distinct_keys(s.found),
        0 < s.limit,
        s.found.len() <= s.limit,
    ensures
        ({
            let (after, _) = hash_found(s, hash);
            let (_, outcome) = hash_found(after, hash);
            !outcome.found && !outcome.search
        }),
{
    law_put_front(s.found, s.limit, hash@, None, hash@);
}

/// Notices come in turn: after one that there are too many torrents, the next one is that
/// there are not, and only where few are left.
pub proof fn law_notices(too_many: bool, count: int)
    ensures
        ({
            let (after, notice) = tasks_changed(too_many, count);
            &&& notice == Some(Notice::TooMany) <==> !too_many && count > TOO_MANY_TASKS
            &&& notice == Some(Notice::Normal) <==> too_many && count < FEW_TASKS
            &&& notice is Some <==> after != too_many
        }),
{
}

/// There are too many torrents with more than a thousand, there are not with fewer than
/// twenty, and between the two nothing changes and there is nothing to tell.
pub proof fn law_task_limits(too_many: bool, count: int)
    ensures
        count > 1000 ==> tasks_changed(too_many, count).0,
        count < 20 ==> !tasks_changed(too_many, count).0,
        20 <= count <= 1000 ==> tasks_changed(too_many, count) == (too_many, None::<Notice>),
        tasks_changed(false, count).1 == (if count > 1000 {
            Some(Notice::TooMany)
        } else {
            None
        }),
        tasks_changed(true, count).1 == (if count < 20 {
            Some(Notice::Normal)
        } else {
            None
        }),
{
}

/// Peers are looked for once for each torrent: one for which they are not is put behind the
/// others and a search is started, and for one for which they are nothing is done.
pub proof fn law_hash_added(s: HashState, hash: InfoHash)
    ensures
        ({
            let (after, outcome) = hash_added(s, hash);
            &&& outcome.search <==> !s.pending.contains(hash)
            &&& !outcome.found
            &&& outcome.search ==> after.pending == s.pending.push(hash)
            &&& !outcome.search ==> after == s && outcome.notice is None
            &&& after.pending.contains(hash)
            &&& after.found == s.found && after.limit == s.limit
            &&& outcome.notice is Some <==> after.too_many != s.too_many
            &&& after.too_many && !s.too_many ==> after.pending.len() > 1000
            &&& !after.too_many && s.too_many ==> after.pending.len() < 20
        }),
{
    let after = hash_added(s, hash).0;
    if !s.pending.contains(hash) {
        assert(after.pending[s.pending.len() as int] == hash);
    }
}

/// A hash is new where it was not found of late, and then a search is started unless one runs;
/// it is kept in front of those that were found.
pub proof fn law_hash_found(s: HashState, hash: InfoHash)
    requires
        distinct_keys(s.found),
        0 < s.limit,
        s.found.len() <= s.limit,
    ensures
        ({
            let (after, outcome) = hash_found(s, hash);
            &&& outcome.found <==> lookup(s.found, hash@) is None
            &&& outcome.search <==> outcome.found && !s.pending.contains(hash)
            &&& outcome.found ==> after.pending.contains(hash)
            &&& !outcome.found ==> after.pending == s.pending && after.too_many == s.too_many
                && outcome.notice is None
            &&& after.found[0] == (hash@, None::<u64>)
            &&& lookup(after.found, hash@) is Some
            &&& after.limit == s.limit
        }),
{
    law_put_front(s.found, s.limit, hash@, None, hash@);
    let kept = HashState { found: put_front(s.found, s.limit, hash@, None), ..s };
    law_hash_added(kept, hash);
}

/// Whoever says that it has a torrent without metadata makes it found, and is one to download
/// from unless it is this host or too many wait; one with metadata changes nothing.
pub proof fn law_announce_handled(
    before: Crawler,
    after: Crawler,
    has_metadata: bool,
    hash: InfoHash,
    ip: SocketAddr,
    r: Option<(HashOutcome, PeerAdded)>,
)
    requires
        before.wf(),
        announce_handled(before, after, has_metadata, hash, ip, r),
    ensures
        has_metadata <==> r is None,
        has_metadata ==> after == before,
        r matches Some((outcome, added)) ==> {
            &&& lookup(after.hashes().found, hash@) is Some
            &&& outcome.found <==> lookup(before.hashes().found, hash@) is None
            &&& outcome.found ==> after.hashes().pending.contains(hash)
            &&& added == PeerAdded::Own || after.downloader.workers().dom().contains(hash)
            &&& added == PeerAdded::Started || added == PeerAdded::Queued
                ==> after.downloader.workers()[hash].queue().last() == ip
            &&& added != PeerAdded::Own ==> lookup(after.downloader.hashes().entries(), hash@) is Some
        },
{
    if !has_metadata {
        law_hash_found(before.hashes(), hash);
        let entries = before.downloader.hashes().entries();
        law_put_front(entries, before.downloader.hashes().limit(), hash@, None, hash@);
    }
}

/// A torrent without metadata that was sampled is found, and where it is new peers are looked
/// for and expected.
pub proof fn law_sample_handled(
    before: Crawler,
    after: Crawler,
    has_metadata: bool,
    hash: InfoHash,
    r: HashOutcome,
)
    requires
        before.wf(),
        sample_handled(before, after, has_metadata, hash, r),
    ensures
        has_metadata ==> after == before && !r.found && !r.search && r.notice is None,
        !has_metadata ==> {
            &&& lookup(after.hashes().found, hash@) is Some
            &&& r.found <==> lookup(before.hashes().found, hash@) is None
            &&& r.found ==> after.hashes().pending.contains(hash) && lookup(
                after.downloader.hashes().entries(),
                hash@,
            ) is Some
            &&& !r.found ==> after.downloader.hashes().entries()
                == before.downloader.hashes().entries()
        },
{
    if !has_metadata {
        law_hash_found(before.hashes(), hash);
        let entries = before.downloader.hashes().entries();
        law_put_front(entries, before.downloader.hashes().limit(), hash@, None, hash@);
    }
}

/// There is an answer for each peer that was found of a torrent without metadata, and none for
/// one with metadata, where nothing changes.
pub proof fn law_peers_handled(
    before: Crawler,
    after: Crawler,
    has_metadata: bool,
    hash: InfoHash,
    peers: Seq<SocketAddr>,
    r: Seq<PeerAdded>,
)
    requires
        before.wf(),
        peers_handled(before, after, has_metadata, hash, peers, r),
    ensures
        has_metadata ==> after == before && r.len() == 0,
        !has_metadata ==> r.len() == peers.len(),
        after.hashes() == before.hashes(),
        !has_metadata && !all_own(before.downloader.my_ips().entries(), peers) ==> lookup(
            after.downloader.hashes().entries(),
            hash@,
        ) is Some,
{
    if !has_metadata {
        let ips = before.downloader.my_ips().entries();
        let queue = queue_of(before.downloader.workers(), hash);
        let one = SocketAddr::V4 { ip: 0, port: 0 };
        law_peers_added(ips, queue, peers, Seq::empty(), one);
        let entries = before.downloader.hashes().entries();
        law_put_front(entries, before.downloader.hashes().limit(), hash@, None, hash@);
    }
}

/// Once metadata was downloaded, something changes only where peers were looked for, and then
/// as their number says.
pub proof fn law_downloaded_change(before: HashState, after: HashState, searched: bool)
    ensures
        ({
            let (too_many, notice) = downloaded_change(before, after, searched);
            &&& !searched ==> too_many == before.too_many && notice is None
            &&& searched && after.pending.len() < 20 ==> !too_many
            &&& searched && after.pending.len() > 1000 ==> too_many
            &&& notice is Some <==> too_many != before.too_many
        }),
{
}

/// Every dictionary may be a message of the DHT, and every reply of a tracker one of a
/// tracker; nothing may be both.
pub proof fn law_packets(d: Seq<(Seq<u8>, Value)>, code: nat, rest: Seq<u8>, data: Seq<u8>)
    ensures
        may_be_krpc(encode(Value::Dict(d))),
        code <= 3 && rest.len() >= 4 ==> may_be_tracker(big_endian_bytes(code, 4) + rest),
        may_be_tracker(data) ==> data.len() >= 8 && big_endian(data.take(4)) <= 3,
        !(may_be_krpc(data) && may_be_tracker(data)),
{
    lemma_big_endian_bytes_len(code, 4);
    if code <= 3 {
        assert(vstd::arithmetic::power::pow(256, 4) == 0x1_0000_0000) by {
            reveal_with_fuel(vstd::arithmetic::power::pow, 5);
        }
        lemma_big_endian_round_trip(code, 4);
        assert((big_endian_bytes(code, 4) + rest).subrange(0, 4) =~= big_endian_bytes(code, 4));
    }
    if data.len() >= 8 {
        assert(data.subrange(0, 4) =~= data.take(4));
        lemma_big_endian_4(data.subrange(0, 4));
    }
}

/// Whoever uses the crawler is told in words whether nodes are sampled, where there is
/// something to tell.
pub proof fn law_notice_told<C: CrawlerController>(controller: &C, notice: Notice)
    requires
        notice_told(controller, Some(notice)),
    ensures
        exists|message: String| #[trigger]
            call_ensures(C::on_message, (controller, message), ()) && message@ == (match notice {
                Notice::TooMany => "Too many hash, auto sample is disabled"@,
                Notice::Normal => "Hash count is normal, auto sample is enabled"@,
            }),
{
    let message = choose|message: String|
        message@ == notice.words() && #[trigger] call_ensures(
            C::on_message,
            (controller, message),
            (),
        );
    assert(call_ensures(C::on_message, (controller, message), ()));
}

} // verus!
