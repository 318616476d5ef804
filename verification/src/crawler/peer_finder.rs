//! Finding the peers of torrents.

use crate::bt::bt_stream::PeerId;
use crate::kad::addr::SocketAddr;
use crate::kad::nodeid::InfoHash;
use vstd::prelude::*;

verus! {

/// How long it is between two searches for the peers of a torrent, in seconds.
pub const SEARCH_INTERVAL: u64 = 900;

/// What uses the peers that are found.
pub trait PeerFinderController {
    /// Peers of a torrent were found.
    fn on_peers_found(&self, hash: InfoHash, peers: Vec<SocketAddr>);

    /// The number of torrents whose peers are looked for changed.
    fn on_tasks_count_changed(&self, count: usize);
}

/// How peers are looked for.
#[derive(Debug, Clone, Copy)]
pub struct PeerFinderConfig {
    pub max_concurrent: usize,
    pub max_retries: usize,
    pub bind_ip: SocketAddr,
    pub peer_id: PeerId,
}

/// What is done next for a torrent.
#[derive(Debug, Clone, Copy, PartialEq, Eq, Structural)]
pub enum FindStep {
    /// Look for its peers, after that many seconds.
    Search(u64),
    /// Nothing more.
    Done,
}

/// The torrents whose peers are looked for.
#[derive(Debug)]
pub struct PeerFinder {
    pending: Vec<InfoHash>,
    config: PeerFinderConfig,
}

impl PeerFinder {
    /// The torrents whose peers are looked for.
    pub closed spec fn pending(&self) -> Seq<InfoHash> {
        self.pending@
    }

    /// How peers are looked for.
    pub closed spec fn spec_config(&self) -> PeerFinderConfig {
        self.config
    }

    /// Whether no torrent occurs twice.
    pub open spec fn wf(&self) -> bool {
        self.pending().no_duplicates()
    }

    /// No torrents.
    pub fn new(config: PeerFinderConfig) -> (r: PeerFinder)
        ensures
            r.wf(),
            r.pending() == Seq::<InfoHash>::empty(),
            r.spec_config() == config,
    {
        PeerFinder { pending: Vec::new(), config }
    }

    /// How peers are looked for.
    pub fn config(&self) -> (r: &PeerFinderConfig)
        ensures
            *r == self.spec_config(),
    {
        &self.config
    }

    /// Whether an address is of the family that this host uses.
    pub fn is_same_family(&self, addr: &SocketAddr) -> (r: bool)
        ensures
            r == (self.spec_config().bind_ip is V4 == *addr is V4),
    {
        self.config.bind_ip.is_ipv4() == addr.is_ipv4()
    }

    /// Where a torrent stands.
    fn position(&self, hash: &InfoHash) -> (r: Option<usize>)
        ensures
            match r {
                Some(i) => i < self.pending().len() && self.pending()[i as int] == *hash,
                None => !self.pending().contains(*hash),
            },
    {
        let mut i: usize = 0;
        while i < self.pending.len()
            invariant
                i <= self.pending@.len(),
                forall|j: int| 0 <= j < i ==> #[trigger] self.pending@[j] != *hash,
            decreases self.pending@.len() - i,
        {
            if self.pending[i] == *hash {
                return Some(i);
            }
            i += 1;
        }
        None
    }

    /// Stops looking for the peers of a torrent; the result is how many are left, where
    /// it was looked for.
    pub fn cancel(&mut self, info_hash: InfoHash) -> (r: Option<usize>)
        requires
            old(self).wf(),
        ensures
            final(self).wf(),
            final(self).spec_config() == old(self).spec_config(),
            final(self).pending().to_set() == old(self).pending().to_set().remove(info_hash),
            match r {
                Some(n) => old(self).pending().contains(info_hash) && n
                    == final(self).pending().len() && n == old(self).pending().len() - 1,
                None => !old(self).pending().contains(info_hash) && *final(self) == *old(self),
            },
    {
        match self.position(&info_hash) {
            Some(i) => {
                self.pending.remove(i);
                proof {
                    let s = old(self).pending();
                    let t = self.pending();
                    assert(s[i as int] == info_hash);
                    assert forall|a: int, b: int|
                        0 <= a < t.len() && 0 <= b < t.len() && a != b implies t[a] != t[b] by {
                        let x = if a < i { a } else { a + 1 };
                        let y = if b < i { b } else { b + 1 };
                        assert(t[a] == s[x] && t[b] == s[y]);
                    }
                    assert forall|x: InfoHash| #[trigger] t.to_set().contains(x)
                        == s.to_set().remove(info_hash).contains(x) by {
                        if t.contains(x) {
                            let a = choose|a: int| 0 <= a < t.len() && t[a] == x;
                            let b = if a < i { a } else { a + 1 };
                            assert(s[b] == x);
                        }
                        if s.contains(x) && x != info_hash {
                            let b = choose|b: int| 0 <= b < s.len() && s[b] == x;
                            let a = if b < i { b } else { b - 1 };
                            assert(t[a] == x);
                        }
                    }
                    assert(t.to_set() =~= s.to_set().remove(info_hash));
                }
                Some(self.pending.len())
            },
            None => {
                assert(self.pending().to_set() =~= self.pending().to_set().remove(info_hash));
                None
            },
        }
    }

    /// Stops looking for any peers; the result is how many torrents are left.
    pub fn cancel_all(&mut self) -> (r: usize)
        ensures
            final(self).wf(),
            final(self).spec_config() == old(self).spec_config(),
            final(self).pending() == Seq::<InfoHash>::empty(),
            r == 0,
    {
        self.pending.clear();
        0
    }

    /// For how many torrents peers are looked for.
    pub fn pending_len(&self) -> (r: usize)
        ensures
            r == self.pending().len(),
    {
        self.pending.len()
    }

    /// Looks for the peers of a torrent, unless that is done; the result is for how many
    /// it is done then, where the torrent is new.
    pub fn add_hash(&mut self, info_hash: InfoHash) -> (r: Option<usize>)
        requires
            old(self).wf(),
        ensures
            final(self).wf(),
            final(self).spec_config() == old(self).spec_config(),
            match r {
                Some(n) => !old(self).pending().contains(info_hash) && final(self).pending()
                    == old(self).pending().push(info_hash) && n == final(self).pending().len(),
                None => old(self).pending().contains(info_hash) && *final(self) == *old(self),
            },
    {
        match self.position(&info_hash) {
            Some(i) => {
                assert(self.pending()[i as int] == info_hash);
                None
            },
            None => {
                self.pending.push(info_hash);
                Some(self.pending.len())
            },
        }
    }

    /// What is done next for a torrent whose peers were looked for so often: look for them
    /// again some time later, as often as that is wanted.
    pub fn find_peers(&self, searches: usize) -> (r: FindStep)
        ensures
            r == (if searches >= self.spec_config().max_retries {
                FindStep::Done
            } else if searches == 0 {
                FindStep::Search(0)
            } else {
                FindStep::Search(SEARCH_INTERVAL)
            }),
    {
        if searches >= self.config.max_retries {
            return FindStep::Done;
        }
        if searches == 0 {
            FindStep::Search(0)
        } else {
            FindStep::Search(SEARCH_INTERVAL)
        }
    }

    /// Takes note that nothing more is done for a torrent; the result is for how many
    /// peers are still looked for.
    pub fn finish(&mut self, info_hash: InfoHash) -> (r: usize)
        requires
            old(self).wf(),
        ensures
            final(self).wf(),
            final(self).spec_config() == old(self).spec_config(),
            final(self).pending().to_set() == old(self).pending().to_set().remove(info_hash),
            r == final(self).pending().len(),
    {
        match self.cancel(info_hash) {
            Some(n) => n,
            None => self.pending.len(),
        }
    }
}

} // verus!
