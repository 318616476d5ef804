//! Iterative searches in the DHT: which nodes to ask, and when to stop.

use crate::assoc::AssocMap;
use crate::bytes::{copy_slice, lemma_lex_total};
use crate::kad::addr::{add_addrs, insert_addrs, lemma_addr_eq, SocketAddr};
use crate::kad::bucket::KBUCKET_SIZE;
use crate::kad::distance::{
    first_n, law_sort_same_nodes, law_sort_sorted, sort_by_distance, sort_nodes,
    sorted_by_distance,
};
use crate::kad::nodeid::{
    distance_less, law_xor, lemma_same_bytes, xor, InfoHash, NodeId,
};
use vstd::prelude::*;

verus! {

/// How many queries count as one iteration.
pub const NUM_QUERIES_PER_ITERATION: usize = 3;

/// After how many iterations without a nearer node a search stops.
pub const MAX_ITERATIONS_WITH_CONVERGENCE: usize = 3;

/// How many iterations a search has at most.
pub const MAX_ITERATIONS: usize = 16;

/// How many queries are on their way at once.
pub const MAX_ALPHA: usize = 10;

/// How many peers a search looks for.
pub const MAX_PEERS: usize = 100;

/// How many queries a search waits for at most.
pub const MAX_QUERIES: usize = MAX_ITERATIONS * NUM_QUERIES_PER_ITERATION;

/// How many replies without a nearer node end a search.
pub const MAX_CONVERGENCE: usize = NUM_QUERIES_PER_ITERATION * MAX_ITERATIONS_WITH_CONVERGENCE;

/// How many nodes a search keeps.
pub const MAX_KEPT: usize = 64;

/// Why a search found nothing.
#[derive(Debug, Clone, Copy, PartialEq, Eq, Structural)]
pub enum FindNodeError {
    /// Nodes were asked, and none replied.
    AllFailed,
}

/// Whether two entries are the same node: they have the same identifier, or both have
/// none (which is written as zero) and have the same address.
pub open spec fn same_node(a: (NodeId, SocketAddr), b: (NodeId, SocketAddr)) -> bool {
    a.0 == b.0 && (a.1 == b.1 || !(a.0@ == Seq::new(20, |i: int| 0u8)))
}

/// The sequence without the entries that are the same node as the one kept before them.
pub open spec fn unique(s: Seq<(NodeId, SocketAddr)>) -> Seq<(NodeId, SocketAddr)>
    decreases s.len(),
{
    if s.len() == 0 {
        seq![]
    } else {
        let t = unique(s.drop_last());
        if t.len() > 0 && same_node(t.last(), s.last()) {
            t
        } else {
            t.push(s.last())
        }
    }
}

/// The nodes by their distance to `target`, each once.
pub open spec fn pruned(target: Seq<u8>, s: Seq<(NodeId, SocketAddr)>) -> Seq<
    (NodeId, SocketAddr),
> {
    unique(sort_by_distance(target, s))
}

/// Sorts nodes by their distance to `target`, and removes duplicates based on their
/// identifier.
pub fn sort_node_and_unique(nodes: &mut Vec<(NodeId, SocketAddr)>, target: NodeId)
    ensures
        final(nodes)@ == pruned(target@, old(nodes)@),
{
    let sorted = sort_nodes(&target, nodes);
    let mut out: Vec<(NodeId, SocketAddr)> = Vec::new();
    let mut i: usize = 0;
    assert(sorted@.take(0) =~= seq![]);
    while i < sorted.len()
        invariant
            i <= sorted@.len(),
            out@ == unique(sorted@.take(i as int)),
        decreases sorted@.len() - i,
    {
        assert(sorted@.take(i + 1).drop_last() =~= sorted@.take(i as int));
        let node: (NodeId, SocketAddr) = sorted[i];
        let n: usize = out.len();
        let known: bool = if n > 0 {
            let last: (NodeId, SocketAddr) = out[n - 1];
            last.0 == node.0 && (last.1 == node.1 || !last.0.is_zero())
        } else {
            false
        };
        if !known {
            out.push(node);
        }
        i += 1;
    }
    assert(sorted@.take(i as int) =~= sorted@);
    *nodes = out;
}

/// The state of a search.
#[verifier::ext_equal]
pub struct Search {
    pub target: NodeId,
    pub ipv4: bool,
    /// The nodes to ask.
    pub queue: Seq<(NodeId, SocketAddr)>,
    /// The addresses that were asked, with the tokens that they gave.
    pub visited: Map<SocketAddr, Seq<u8>>,
    /// The nodes that were heard of.
    pub collected: Seq<(NodeId, SocketAddr)>,
    /// The nearest of them.
    pub nearest: Seq<(NodeId, SocketAddr)>,
    /// How many replies in a row brought no nearer node.
    pub convergence: nat,
    /// How many queries were answered or failed.
    pub completed: nat,
    /// How many queries are on their way.
    pub in_flight: nat,
    /// Whether the search stopped because nothing nearer came.
    pub converged: bool,
}

impl Search {
    /// Whether the nodes that were heard of are sorted by their distance to the target, and
    /// the nearest are the first of them.
    pub open spec fn ordered(self) -> bool {
        &&& sorted_by_distance(self.target@, self.collected)
        &&& self.nearest == first_n(self.collected, KBUCKET_SIZE as int)
    }

    /// Whether the search is over.
    pub open spec fn finished(self) -> bool {
        ||| self.completed >= MAX_QUERIES
        ||| self.queue.len() == 0 && self.in_flight == 0
        ||| self.converged
    }

    /// How many queries can be sent now.
    pub open spec fn sendable(self) -> nat {
        let free = if self.in_flight < MAX_ALPHA {
            (MAX_ALPHA - self.in_flight) as nat
        } else {
            0
        };
        if free < self.queue.len() {
            free
        } else {
            self.queue.len()
        }
    }

    /// The state once those queries are on their way.
    pub open spec fn sent(self) -> Search {
        Search {
            queue: self.queue.skip(self.sendable() as int),
            in_flight: self.in_flight + self.sendable(),
            ..self
        }
    }

    /// The state once one query has ended.
    pub open spec fn completed_one(self) -> Search {
        Search {
            completed: self.completed + 1,
            in_flight: (self.in_flight - 1) as nat,
            ..self
        }
    }

    /// The state once the query to an address has failed.
    pub open spec fn failed(self, ip: SocketAddr) -> Search {
        let s = self.completed_one();
        Search { visited: s.visited.insert(ip, seq![]), ..s }
    }

    /// Whether a node can be asked: its address is of the family of the session, and was
    /// not asked.
    pub open spec fn askable(self, node: (NodeId, SocketAddr)) -> bool {
        node.1 is V4 == self.ipv4 && !self.visited.dom().contains(node.1)
    }

    /// The state once an address has replied with a token and nodes.
    pub open spec fn replied(
        self,
        ip: SocketAddr,
        token: Seq<u8>,
        nodes: Seq<(NodeId, SocketAddr)>,
    ) -> Search {
        let s = self.completed_one();
        let s = Search { visited: s.visited.insert(ip, token), ..s };
        s.learned(nodes)
    }

    /// The state once nodes were heard of.
    pub open spec fn learned(self, nodes: Seq<(NodeId, SocketAddr)>) -> Search {
        let queue = pruned(
            self.target@,
            self.queue + nodes.filter(|node: (NodeId, SocketAddr)| self.askable(node)),
        );
        let collected = pruned(self.target@, self.collected + nodes);
        let best = first_n(collected, KBUCKET_SIZE as int);
        let len = if self.nearest.len() < best.len() {
            self.nearest.len() as int
        } else {
            best.len() as int
        };
        if self.nearest.take(len) != best.take(len) || len < KBUCKET_SIZE {
            Search {
                queue: first_n(queue, MAX_KEPT as int),
                collected: first_n(collected, MAX_KEPT as int),
                nearest: best,
                convergence: 0,
                ..self
            }
        } else if self.convergence + 1 >= MAX_CONVERGENCE {
            Search {
                queue,
                collected,
                convergence: self.convergence + 1,
                converged: true,
                ..self
            }
        } else {
            Search {
                queue: first_n(queue, MAX_KEPT as int),
                collected: first_n(collected, MAX_KEPT as int),
                convergence: self.convergence + 1,
                ..self
            }
        }
    }
}

/// A search for the nodes that are nearest to a target.
pub struct Lookup {
    target: NodeId,
    ipv4: bool,
    queue: Vec<(NodeId, SocketAddr)>,
    visited: AssocMap<SocketAddr, Vec<u8>>,
    collected: Vec<(NodeId, SocketAddr)>,
    nearest: Vec<(NodeId, SocketAddr)>,
    convergence: usize,
    completed: usize,
    in_flight: usize,
    converged: bool,
}

impl View for Lookup {
    type V = Search;

    closed spec fn view(&self) -> Search {
        Search {
            target: self.target,
            ipv4: self.ipv4,
            queue: self.queue@,
            visited: self.visited@.map_values(|token: Vec<u8>| token@),
            collected: self.collected@,
            nearest: self.nearest@,
            convergence: self.convergence as nat,
            completed: self.completed as nat,
            in_flight: self.in_flight as nat,
            converged: self.converged,
        }
    }
}

/// The first `n` entries.
fn keep_first(nodes: &mut Vec<(NodeId, SocketAddr)>, n: usize)
    ensures
        final(nodes)@ == first_n(old(nodes)@, n as int),
{
    nodes.truncate(n);
}

/// A copy of the first `n` entries.
fn copy_first(nodes: &Vec<(NodeId, SocketAddr)>, n: usize) -> (r: Vec<(NodeId, SocketAddr)>)
    ensures
        r@ == first_n(nodes@, n as int),
{
    let mut r: Vec<(NodeId, SocketAddr)> = Vec::new();
    let mut i: usize = 0;
    while i < nodes.len() && i < n
        invariant
            i <= nodes@.len(),
            i <= n,
            r@ == nodes@.take(i as int),
        decreases nodes@.len() - i,
    {
        r.push(nodes[i]);
        assert(nodes@.take(i + 1) =~= nodes@.take(i as int).push(nodes@[i as int]));
        i += 1;
    }
    assert(nodes@.take(nodes@.len() as int) =~= nodes@);
    r
}

/// Whether the first `n` entries of two lists are the same.
fn same_first(a: &Vec<(NodeId, SocketAddr)>, b: &Vec<(NodeId, SocketAddr)>, n: usize) -> (r: bool)
    requires
        n <= a@.len(),
        n <= b@.len(),
    ensures
        r == (a@.take(n as int) == b@.take(n as int)),
{
    let mut i: usize = 0;
    while i < n
        invariant
            i <= n <= a@.len(),
            n <= b@.len(),
            forall|j: int| 0 <= j < i ==> a@[j] == b@[j],
        decreases n - i,
    {
        if !(a[i].0 == b[i].0) || !(a[i].1 == b[i].1) {
            assert(a@.take(n as int)[i as int] != b@.take(n as int)[i as int]);
            return false;
        }
        i += 1;
    }
    assert(a@.take(n as int) =~= b@.take(n as int));
    true
}

impl Lookup {
    /// Whether the counters are in range, and the nodes that were heard of are in order.
    pub closed spec fn wf(&self) -> bool {
        &&& self.visited.wf()
        &&& self.in_flight <= MAX_ALPHA
        &&& self.completed <= MAX_QUERIES
        &&& self.convergence <= MAX_CONVERGENCE
        &&& self.convergence < MAX_CONVERGENCE || self.converged
        &&& self@.ordered()
    }

    /// A search that starts with the given nodes to ask.
    pub fn new(queue: Vec<(NodeId, SocketAddr)>, target: NodeId, ipv4: bool) -> (r: Lookup)
        ensures
            r.wf(),
            r@ == (Search {
                target,
                ipv4,
                queue: queue@,
                visited: Map::empty(),
                collected: seq![],
                nearest: seq![],
                convergence: 0,
                completed: 0,
                in_flight: 0,
                converged: false,
            }),
    {
        let r = Lookup {
            target,
            ipv4,
            queue,
            visited: AssocMap::new(),
            collected: Vec::new(),
            nearest: Vec::new(),
            convergence: 0,
            completed: 0,
            in_flight: 0,
            converged: false,
        };
        assert(r@.visited =~= Map::empty());
        r
    }

    /// Whether the search is over.
    pub fn is_finished(&self) -> (r: bool)
        ensures
            r == self@.finished(),
    {
        self.completed >= MAX_QUERIES || (self.queue.len() == 0 && self.in_flight == 0)
            || self.converged
    }

    /// The nodes to ask now. A query to each of them is then on its way.
    pub fn next_queries(&mut self) -> (r: Vec<(NodeId, SocketAddr)>)
        requires
            old(self).wf(),
            !old(self)@.finished(),
        ensures
            final(self).wf(),
            r@ == old(self)@.queue.take(old(self)@.sendable() as int),
            final(self)@ == old(self)@.sent(),
            final(self)@.in_flight > 0,
    {
        let free: usize = MAX_ALPHA - self.in_flight;
        let num: usize = if free < self.queue.len() {
            free
        } else {
            self.queue.len()
        };
        let rest = self.queue.split_off(num);
        let mut first = rest;
        std::mem::swap(&mut first, &mut self.queue);
        self.in_flight = self.in_flight + num;
        assert(first@ =~= old(self)@.queue.take(num as int));
        assert(self@ =~= old(self)@.sent());
        first
    }

    /// Notes that a query ended without a result.
    pub fn query_lost(&mut self)
        requires
            old(self).wf(),
            old(self)@.in_flight > 0,
            !old(self)@.finished(),
        ensures
            final(self).wf(),
            final(self)@ == old(self)@.completed_one(),
    {
        self.completed = self.completed + 1;
        self.in_flight = self.in_flight - 1;
        assert(self@ =~= old(self)@.completed_one());
    }

    /// Notes that the query to an address failed.
    pub fn query_failed(&mut self, ip: SocketAddr)
        requires
            old(self).wf(),
            old(self)@.in_flight > 0,
            !old(self)@.finished(),
        ensures
            final(self).wf(),
            final(self)@ == old(self)@.failed(ip),
    {
        proof {
            lemma_addr_eq();
        }
        self.query_lost();
        self.visited.insert(ip, Vec::new());
        proof {
            law_search_ordered(old(self)@, ip, seq![], seq![]);
        }
        assert(self@.visited =~= old(self)@.visited.insert(ip, seq![]));
        assert(self@ =~= old(self)@.failed(ip));
    }

    /// Takes in the reply of an address: its token, and the nodes that it told of.
    pub fn query_replied(
        &mut self,
        ip: SocketAddr,
        token: Vec<u8>,
        nodes: &Vec<(NodeId, SocketAddr)>,
    )
        requires
            old(self).wf(),
            old(self)@.in_flight > 0,
            !old(self)@.finished(),
        ensures
            final(self).wf(),
            final(self)@ == old(self)@.replied(ip, token@, nodes@),
    {
        proof {
            lemma_addr_eq();
        }
        let ghost t = token@;
        proof {
            law_search_ordered(old(self)@, ip, t, nodes@);
        }
        self.query_lost();
        self.visited.insert(ip, token);
        assert(self@.visited =~= old(self)@.visited.insert(ip, t));
        self.learn(nodes);
    }

    /// Takes in nodes that were heard of.
    fn learn(&mut self, nodes: &Vec<(NodeId, SocketAddr)>)
        requires
            old(self).wf(),
            !old(self)@.converged,
        ensures
            final(self).wf(),
            final(self)@ == old(self)@.learned(nodes@),
    {
        proof {
            lemma_addr_eq();
        }
        let ghost s = self@;
        let ghost pred = |node: (NodeId, SocketAddr)| s.askable(node);
        let mut i: usize = 0;
        proof {
            lemma_learned_ordered(s, nodes@);
            reveal(Seq::filter);
            assert(self.queue@ + nodes@.take(0).filter(pred) =~= self.queue@);
            assert(self.collected@ + nodes@.take(0) =~= self.collected@);
        }
        while i < nodes.len()
            invariant
                i <= nodes@.len(),
                vstd::laws_eq::obeys_concrete_eq::<SocketAddr>(),
                self.visited.wf(),
                pred == (|node: (NodeId, SocketAddr)| s.askable(node)),
                self@.visited == s.visited,
                self.queue@ == s.queue + nodes@.take(i as int).filter(pred),
                self.collected@ == s.collected + nodes@.take(i as int),
                self@ == (Search {
                    queue: self.queue@,
                    collected: self.collected@,
                    ..s
                }),
            decreases nodes@.len() - i,
        {
            let node: (NodeId, SocketAddr) = nodes[i];
            proof {
                reveal(Seq::filter);
                assert(nodes@.take(i + 1).drop_last() =~= nodes@.take(i as int));
                assert(nodes@.take(i + 1).last() == node);
                assert(s.visited.dom().contains(node.1) == self.visited@.dom().contains(node.1));
            }
            if node.1.is_ipv4() == self.ipv4 && !self.visited.contains_key(&node.1) {
                self.queue.push(node);
            }
            self.collected.push(node);
            assert(self.queue@ =~= s.queue + nodes@.take(i + 1).filter(pred));
            assert(self.collected@ =~= s.collected + nodes@.take(i + 1));
            i += 1;
        }
        assert(nodes@.take(i as int) =~= nodes@);
        sort_node_and_unique(&mut self.queue, self.target);
        sort_node_and_unique(&mut self.collected, self.target);
        let collected_len: usize = if self.collected.len() < KBUCKET_SIZE {
            self.collected.len()
        } else {
            KBUCKET_SIZE
        };
        let len: usize = if self.nearest.len() < collected_len {
            self.nearest.len()
        } else {
            collected_len
        };
        let same: bool = same_first(&self.nearest, &self.collected, len);
        proof {
            let best = first_n(self.collected@, KBUCKET_SIZE as int);
            assert(best.len() == collected_len);
            assert(best.take(len as int) =~= self.collected@.take(len as int));
        }
        if !same || len < KBUCKET_SIZE {
            self.nearest = copy_first(&self.collected, KBUCKET_SIZE);
            self.convergence = 0;
        } else {
            self.convergence = self.convergence + 1;
            if self.convergence >= MAX_CONVERGENCE {
                self.converged = true;
                assert(self@ =~= s.learned(nodes@));
                return;
            }
        }
        keep_first(&mut self.queue, MAX_KEPT);
        keep_first(&mut self.collected, MAX_KEPT);
        assert(self@ =~= s.learned(nodes@));
    }

    /// What the search has found: the nearest nodes.
    pub fn find_node_result(&self) -> (r: Result<Vec<(NodeId, SocketAddr)>, FindNodeError>)
        ensures
            match r {
                Ok(nodes) => nodes@ == self@.nearest && nodes@.len() > 0,
                Err(e) => e == FindNodeError::AllFailed && self@.nearest.len() == 0,
            },
    {
        if self.nearest.len() == 0 {
            return Err(FindNodeError::AllFailed);
        }
        let n: usize = self.nearest.len();
        Ok(copy_first(&self.nearest, n))
    }
}

/// A node that can be announced to.
#[derive(Debug)]
pub struct GetPeersNode {
    pub id: NodeId,
    pub ip: SocketAddr,
    pub token: Vec<u8>,
}

/// What a search for peers has found.
#[derive(Debug)]
pub struct GetPeersResult {
    /// The nearest nodes that gave a token.
    pub nodes: Vec<GetPeersNode>,
    pub peers: Vec<SocketAddr>,
}

/// A search for the peers of a torrent.
pub struct GetPeersSearch {
    lookup: Lookup,
    peers: Vec<SocketAddr>,
}

/// The nodes that gave a token.
pub open spec fn with_token(s: Search) -> Seq<(NodeId, SocketAddr)> {
    s.collected.filter(
        |node: (NodeId, SocketAddr)|
            s.visited.dom().contains(node.1) && s.visited[node.1].len() > 0,
    )
}

impl Search {
    /// Whether the node at an address gave a token.
    pub open spec fn gave_token(self, ip: SocketAddr) -> bool {
        self.visited.dom().contains(ip) && self.visited[ip].len() > 0
    }
}

/// Whether nodes are the nearest that gave a token: each was heard of and has the token that
/// it gave, they are sorted by their distance to the target, and one that was heard of and
/// gave a token is missing only where there are eight, none of which is farther.
pub open spec fn nearest_tokens(s: Search, nodes: Seq<GetPeersNode>) -> bool {
    &&& nodes.len() <= 8
    &&& forall|x: int|
        0 <= x < nodes.len() ==> {
            let n = #[trigger] nodes[x];
            &&& s.collected.contains((n.id, n.ip))
            &&& s.gave_token(n.ip)
            &&& n.token@ == s.visited[n.ip]
        }
    &&& forall|x: int, y: int|
        0 <= x < y < nodes.len() ==> !distance_less(
            s.target@,
            (#[trigger] nodes[y]).id@,
            (#[trigger] nodes[x]).id@,
        )
    &&& forall|p: (NodeId, SocketAddr)| #[trigger]
        s.collected.contains(p) && s.gave_token(p.1) ==> (exists|x: int|
            0 <= x < nodes.len() && (#[trigger] nodes[x]).id == p.0 && nodes[x].ip == p.1) || (
        nodes.len() == 8 && forall|x: int|
            0 <= x < nodes.len() ==> !distance_less(
                s.target@,
                p.0@,
                (#[trigger] nodes[x]).id@,
            ))
}

impl GetPeersSearch {
    /// The search for nodes.
    pub closed spec fn search(&self) -> Search {
        self.lookup@
    }

    /// The peers found so far.
    pub closed spec fn peers(&self) -> Seq<SocketAddr> {
        self.peers@
    }

    /// Whether the search is well formed.
    pub closed spec fn wf(&self) -> bool {
        self.lookup.wf()
    }

    /// Whether the search is over.
    pub open spec fn finished(&self) -> bool {
        self.search().finished() || self.peers().len() >= MAX_PEERS
    }

    /// A search that starts with the given nodes to ask.
    pub fn new(queue: Vec<(NodeId, SocketAddr)>, hash: InfoHash, ipv4: bool) -> (r: GetPeersSearch)
        ensures
            r.wf(),
            r.peers() == Seq::<SocketAddr>::empty(),
            r.search() == (Search {
                target: hash,
                ipv4,
                queue: queue@,
                visited: Map::empty(),
                collected: seq![],
                nearest: seq![],
                convergence: 0,
                completed: 0,
                in_flight: 0,
                converged: false,
            }),
    {
        GetPeersSearch { lookup: Lookup::new(queue, hash, ipv4), peers: Vec::new() }
    }

    /// Whether the search is over.
    pub fn is_finished(&self) -> (r: bool)
        ensures
            r == self.finished(),
    {
        self.lookup.is_finished() || self.peers.len() >= MAX_PEERS
    }

    /// The nodes to ask now. A query to each of them is then on its way.
    pub fn next_queries(&mut self) -> (r: Vec<(NodeId, SocketAddr)>)
        requires
            old(self).wf(),
            !old(self).finished(),
        ensures
            final(self).wf(),
            r@ == old(self).search().queue.take(old(self).search().sendable() as int),
            final(self).search() == old(self).search().sent(),
            final(self).search().in_flight > 0,
            final(self).peers() == old(self).peers(),
    {
        self.lookup.next_queries()
    }

    /// Notes that a query ended without a result.
    pub fn query_lost(&mut self)
        requires
            old(self).wf(),
            old(self).search().in_flight > 0,
            !old(self).search().finished(),
        ensures
            final(self).wf(),
            final(self).search() == old(self).search().completed_one(),
            final(self).peers() == old(self).peers(),
    {
        self.lookup.query_lost();
    }

    /// Notes that the query to an address failed.
    pub fn query_failed(&mut self, ip: SocketAddr)
        requires
            old(self).wf(),
            old(self).search().in_flight > 0,
            !old(self).search().finished(),
        ensures
            final(self).wf(),
            final(self).search() == old(self).search().failed(ip),
            final(self).peers() == old(self).peers(),
    {
        self.lookup.query_failed(ip);
    }

    /// Takes in the reply of an address: its token, the nodes and the peers that it told of.
    pub fn query_replied(
        &mut self,
        ip: SocketAddr,
        token: Vec<u8>,
        nodes: &Vec<(NodeId, SocketAddr)>,
        values: &Vec<SocketAddr>,
    )
        requires
            old(self).wf(),
            old(self).search().in_flight > 0,
            !old(self).search().finished(),
        ensures
            final(self).wf(),
            final(self).search() == old(self).search().replied(ip, token@, nodes@),
            final(self).peers() == insert_addrs(old(self).peers(), values@),
    {
        add_addrs(&mut self.peers, values);
        self.lookup.query_replied(ip, token, nodes);
    }

    /// What the search has found: the peers, and the nearest nodes that gave a token.
    pub fn result(self) -> (r: Result<GetPeersResult, FindNodeError>)
        requires
            self.wf(),
        ensures
            match r {
                Ok(found) => {
                    let nodes = first_n(with_token(self.search()), KBUCKET_SIZE as int);
                    &&& self.peers().len() > 0 || self.search().collected.len() > 0
                    &&& found.peers@ == self.peers()
                    &&& found.nodes@.len() == nodes.len()
                    &&& forall|i: int|
                        0 <= i < nodes.len() ==> (#[trigger] found.nodes@[i]).id == nodes[i].0
                            && found.nodes@[i].ip == nodes[i].1 && found.nodes@[i].token@
                            == self.search().visited[nodes[i].1]
                    &&& nearest_tokens(self.search(), found.nodes@)
                },
                Err(e) => e == FindNodeError::AllFailed && self.peers().len() == 0
                    && self.search().collected.len() == 0,
            },
    {
        proof {
            lemma_addr_eq();
        }
        let ghost s = self.search();
        let ghost pred = |node: (NodeId, SocketAddr)|
            s.visited.dom().contains(node.1) && s.visited[node.1].len() > 0;
        let ghost all = s.collected;
        let mut nodes: Vec<GetPeersNode> = Vec::new();
        let mut i: usize = 0;
        proof {
            reveal(Seq::filter);
            assert(all.take(0).filter(pred) =~= seq![]);
        }
        while i < self.lookup.collected.len() && nodes.len() < KBUCKET_SIZE
            invariant
                vstd::laws_eq::obeys_concrete_eq::<SocketAddr>(),
                self.wf(),
                s == self.search(),
                all == self.lookup.collected@,
                i <= all.len(),
                pred == (|node: (NodeId, SocketAddr)|
                    s.visited.dom().contains(node.1) && s.visited[node.1].len() > 0),
                nodes@.len() == all.take(i as int).filter(pred).len(),
                nodes@.len() <= KBUCKET_SIZE,
                forall|j: int|
                    0 <= j < nodes@.len() ==> (#[trigger] nodes@[j]).id == all.take(
                        i as int,
                    ).filter(pred)[j].0 && nodes@[j].ip == all.take(i as int).filter(pred)[j].1
                        && nodes@[j].token@ == s.visited[nodes@[j].ip],
            decreases all.len() - i,
        {
            let node: (NodeId, SocketAddr) = self.lookup.collected[i];
            proof {
                reveal(Seq::filter);
                assert(all.take(i + 1).drop_last() =~= all.take(i as int));
                assert(all.take(i + 1).last() == node);
                assert(s.visited.dom().contains(node.1) == self.lookup.visited@.dom().contains(
                    node.1,
                ));
            }
            match self.lookup.visited.get(&node.1) {
                Some(token) => {
                    assert(s.visited[node.1] == token@);
                    if token.len() > 0 {
                        let copy = copy_slice(token.as_slice());
                        nodes.push(GetPeersNode { id: node.0, ip: node.1, token: copy });
                    }
                },
                None => {},
            }
            i += 1;
        }
        proof {
            if i == all.len() {
                assert(all.take(i as int) =~= all);
            }
            lemma_filter_prefix(all, pred, i as int);
            assert(with_token(s) == all.filter(pred));
            law_token_nodes(s);
            let kept = first_n(with_token(s), KBUCKET_SIZE as int);
            assert forall|p: (NodeId, SocketAddr)| #[trigger]
                s.collected.contains(p) && s.gave_token(p.1) && !kept.contains(
                    p,
                ) implies nodes@.len() == 8 && forall|x: int|
                0 <= x < nodes@.len() ==> !distance_less(
                    s.target@,
                    p.0@,
                    (#[trigger] nodes@[x]).id@,
                ) by {
                assert forall|x: int| 0 <= x < nodes@.len() implies !distance_less(
                    s.target@,
                    p.0@,
                    (#[trigger] nodes@[x]).id@,
                ) by {
                    assert(nodes@[x].id == kept[x].0);
                }
            }
            assert forall|p: (NodeId, SocketAddr)| kept.contains(p) implies exists|x: int|
                0 <= x < nodes@.len() && (#[trigger] nodes@[x]).id == p.0 && nodes@[x].ip
                    == p.1 by {
                let x = choose|x: int| 0 <= x < kept.len() && kept[x] == p;
                assert(nodes@[x].id == p.0);
            }
            assert forall|x: int, y: int| 0 <= x < y < nodes@.len() implies !distance_less(
                s.target@,
                (#[trigger] nodes@[y]).id@,
                (#[trigger] nodes@[x]).id@,
            ) by {
                assert(nodes@[x].id == kept[x].0 && nodes@[y].id == kept[y].0);
            }
            assert forall|x: int| 0 <= x < nodes@.len() implies ({
                let n = #[trigger] nodes@[x];
                &&& s.collected.contains((n.id, n.ip))
                &&& s.gave_token(n.ip)
                &&& n.token@ == s.visited[n.ip]
            }) by {
                assert(nodes@[x].id == kept[x].0);
                assert(kept[x] == (nodes@[x].id, nodes@[x].ip));
            }
            assert(nearest_tokens(s, nodes@));
        }
        if self.peers.len() == 0 && self.lookup.collected.len() == 0 {
            return Err(FindNodeError::AllFailed);
        }
        Ok(GetPeersResult { nodes, peers: self.peers })
    }
}

/// Filtering a first part gives a first part of what filtering all gives.
proof fn lemma_filter_prefix<A>(s: Seq<A>, pred: spec_fn(A) -> bool, n: int)
    requires
        0 <= n <= s.len(),
    ensures
        s.take(n).filter(pred).len() <= s.filter(pred).len(),
        s.filter(pred).take(s.take(n).filter(pred).len() as int) == s.take(n).filter(pred),
    decreases s.len(),
{
    reveal(Seq::filter);
    let f = s.take(n).filter(pred);
    if n == s.len() {
        assert(s.take(n) =~= s);
        assert(f.take(f.len() as int) =~= f);
    } else {
        let t = s.drop_last();
        lemma_filter_prefix(t, pred, n);
        assert(t.take(n) =~= s.take(n));
        assert(s.filter(pred).take(f.len() as int) =~= t.filter(pred).take(f.len() as int));
    }
}

/// A search waits for a bounded number of queries: each that ends brings it nearer to its
/// end, however it ends.
pub proof fn law_search_ends(s: Search, ip: SocketAddr, token: Seq<u8>, nodes: Seq<(NodeId, SocketAddr)>)
    requires
        !s.finished(),
        s.in_flight > 0,
    ensures
        s.completed_one().completed == s.completed + 1,
        s.failed(ip).completed == s.completed + 1,
        s.replied(ip, token, nodes).completed == s.completed + 1,
        s.completed < MAX_QUERIES,
{
}

/// The nearest nodes are the first of those that were heard of.
pub proof fn law_nearest(s: Search, nodes: Seq<(NodeId, SocketAddr)>)
    requires
        s.nearest.len() <= KBUCKET_SIZE,
    ensures
        s.learned(nodes).nearest == first_n(
            pruned(s.target@, s.collected + nodes),
            KBUCKET_SIZE as int,
        ),
        s.learned(nodes).nearest.len() <= KBUCKET_SIZE,
{
    let best = first_n(pruned(s.target@, s.collected + nodes), KBUCKET_SIZE as int);
    let len = if s.nearest.len() < best.len() {
        s.nearest.len() as int
    } else {
        best.len() as int
    };
    if !(s.nearest.take(len) != best.take(len) || len < KBUCKET_SIZE) {
        assert(s.nearest.take(len) =~= s.nearest);
        assert(best.take(len) =~= best);
    }
}

/// What `unique` keeps are entries of the sequence, in order.
proof fn lemma_unique_member(s: Seq<(NodeId, SocketAddr)>, i: int) -> (k: int)
    requires
        0 <= i < unique(s).len(),
    ensures
        0 <= k < s.len(),
        unique(s)[i] == s[k],
    decreases s.len(),
{
    let t = unique(s.drop_last());
    if i < t.len() {
        lemma_unique_member(s.drop_last(), i)
    } else {
        s.len() - 1
    }
}

proof fn lemma_unique_sorted(target: Seq<u8>, s: Seq<(NodeId, SocketAddr)>)
    requires
        sorted_by_distance(target, s),
    ensures
        sorted_by_distance(target, unique(s)),
    decreases s.len(),
{
    if s.len() > 0 {
        let d = s.drop_last();
        let t = unique(d);
        assert forall|i: int, j: int| 0 <= i < j < d.len() implies !distance_less(
            target,
            (#[trigger] d[j]).0@,
            (#[trigger] d[i]).0@,
        ) by {
            assert(d[i] == s[i] && d[j] == s[j]);
        }
        lemma_unique_sorted(target, d);
        let u = unique(s);
        assert forall|i: int, j: int| 0 <= i < j < u.len() implies !distance_less(
            target,
            (#[trigger] u[j]).0@,
            (#[trigger] u[i]).0@,
        ) by {
            if j < t.len() {
                assert(u[i] == t[i] && u[j] == t[j]);
            } else {
                let k = lemma_unique_member(d, i);
                assert(u[i] == s[k]);
                assert(u[j] == s[s.len() - 1]);
            }
        }
    }
}

/// Sorted nodes without duplicates are some of the nodes, from the nearest to the farthest.
pub proof fn law_pruned(target: Seq<u8>, s: Seq<(NodeId, SocketAddr)>)
    ensures
        pruned(target, s).len() <= s.len(),
        sorted_by_distance(target, pruned(target, s)),
        forall|i: int|
            0 <= i < pruned(target, s).len() ==> s.contains(#[trigger] pruned(target, s)[i]),
{
    let t = sort_by_distance(target, s);
    law_sort_sorted(target, s);
    law_sort_same_nodes(target, s);
    lemma_unique_sorted(target, t);
    lemma_unique_len(t);
    let u = pruned(target, s);
    assert forall|i: int| 0 <= i < u.len() implies s.contains(#[trigger] u[i]) by {
        broadcast use vstd::seq_lib::group_to_multiset_ensures;

        let k = lemma_unique_member(t, i);
        assert(t.contains(t[k]));
        assert(t.to_multiset().contains(t[k]));
        assert(s.to_multiset().contains(t[k]));
    }
}

proof fn lemma_unique_len(s: Seq<(NodeId, SocketAddr)>)
    ensures
        unique(s).len() <= s.len(),
    decreases s.len(),
{
    if s.len() > 0 {
        lemma_unique_len(s.drop_last());
    }
}

proof fn lemma_unique_adjacent(s: Seq<(NodeId, SocketAddr)>, i: int)
    requires
        0 <= i < unique(s).len() - 1,
    ensures
        !same_node(unique(s)[i], unique(s)[i + 1]),
    decreases s.len(),
{
    let t = unique(s.drop_last());
    if i < t.len() - 1 {
        lemma_unique_adjacent(s.drop_last(), i);
        assert(unique(s)[i] == t[i] && unique(s)[i + 1] == t[i + 1]);
    } else {
        assert(unique(s)[i] == t.last());
        assert(unique(s)[i + 1] == s.last());
    }
}

/// Sorted nodes without duplicates have no two with the same identifier, but for those
/// whose identifier is not known.
pub proof fn law_pruned_distinct(target: NodeId, s: Seq<(NodeId, SocketAddr)>, i: int, j: int)
    requires
        0 <= i < j < pruned(target@, s).len(),
        pruned(target@, s)[i].0@ != Seq::new(20, |k: int| 0u8),
    ensures
        pruned(target@, s)[i].0 != pruned(target@, s)[j].0,
{
    let t = sort_by_distance(target@, s);
    let u = pruned(target@, s);
    law_pruned(target@, s);
    lemma_unique_adjacent(t, i);
    if u[i].0 == u[j].0 {
        let a = u[i].0;
        let b = u[i + 1].0;
        assert(!distance_less(target@, u[i + 1].0@, u[i].0@));
        if i + 1 < j {
            assert(!distance_less(target@, u[j].0@, u[i + 1].0@));
        }
        lemma_lex_total(xor(a@, target@), xor(b@, target@));
        law_xor(a, target);
        law_xor(b, target);
        lemma_same_bytes(a, b);
    }
}

/// A member of a filtered sequence is one that meets the condition, and they keep their
/// order.
proof fn lemma_filter_at<A>(s: Seq<A>, pred: spec_fn(A) -> bool, i: int) -> (k: int)
    requires
        0 <= i < s.filter(pred).len(),
    ensures
        0 <= k < s.len(),
        s.filter(pred)[i] == s[k],
        pred(s[k]),
        s.take(k).filter(pred).len() == i,
    decreases s.len(),
{
    reveal(Seq::filter);
    let t = s.drop_last();
    if i < t.filter(pred).len() {
        let k = lemma_filter_at(t, pred, i);
        assert(t.take(k) =~= s.take(k));
        k
    } else {
        assert(s.take(s.len() - 1) =~= t);
        s.len() - 1
    }
}

/// Filtering a longer first part gives at least as much.
proof fn lemma_filter_grows<A>(s: Seq<A>, pred: spec_fn(A) -> bool, m: int, n: int)
    requires
        0 <= m <= n <= s.len(),
    ensures
        s.take(m).filter(pred).len() <= s.take(n).filter(pred).len(),
{
    lemma_filter_prefix(s.take(n), pred, m);
    assert(s.take(n).take(m) =~= s.take(m));
}

/// A member that meets the condition is in the filtered sequence.
proof fn lemma_filter_kept<A>(s: Seq<A>, pred: spec_fn(A) -> bool, k: int)
    requires
        0 <= k < s.len(),
        pred(s[k]),
    ensures
        s.filter(pred).contains(s[k]),
    decreases s.len(),
{
    reveal(Seq::filter);
    let t = s.drop_last();
    if k < t.len() {
        lemma_filter_kept(t, pred, k);
        let x = choose|x: int| 0 <= x < t.filter(pred).len() && t.filter(pred)[x] == s[k];
        assert(s.filter(pred)[x] == s[k]);
    } else {
        assert(s.filter(pred)[t.filter(pred).len() as int] == s[k]);
    }
}

/// The first eight nodes that gave a token: they were heard of, they are sorted by their
/// distance to the target, and one that is not among them is not nearer than one that is.
pub proof fn law_token_nodes(s: Search)
    requires
        s.ordered(),
    ensures
        ({
            let r = first_n(with_token(s), 8);
            &&& r.len() <= 8
            &&& forall|x: int|
                0 <= x < r.len() ==> s.collected.contains(#[trigger] r[x]) && s.gave_token(r[x].1)
            &&& forall|x: int, y: int|
                0 <= x < y < r.len() ==> !distance_less(
                    s.target@,
                    (#[trigger] r[y]).0@,
                    (#[trigger] r[x]).0@,
                )
            &&& forall|p: (NodeId, SocketAddr)| #[trigger]
                s.collected.contains(p) && s.gave_token(p.1) && !r.contains(p) ==> r.len() == 8
                    && forall|x: int|
                    0 <= x < r.len() ==> !distance_less(s.target@, p.0@, (#[trigger] r[x]).0@)
        }),
{
    let pred = |node: (NodeId, SocketAddr)|
        s.visited.dom().contains(node.1) && s.visited[node.1].len() > 0;
    let all = with_token(s);
    let r = first_n(all, 8);
    assert(all == s.collected.filter(pred));
    assert forall|x: int, y: int| 0 <= x < y < all.len() implies !distance_less(
        s.target@,
        (#[trigger] all[y]).0@,
        (#[trigger] all[x]).0@,
    ) by {
        let k = lemma_filter_at(s.collected, pred, x);
        let l = lemma_filter_at(s.collected, pred, y);
        if l <= k {
            lemma_filter_grows(s.collected, pred, l, k);
        }
        assert(!distance_less(s.target@, s.collected[l].0@, s.collected[k].0@));
    }
    assert forall|x: int| 0 <= x < r.len() implies s.collected.contains(#[trigger] r[x])
        && s.gave_token(r[x].1) by {
        let k = lemma_filter_at(s.collected, pred, x);
        assert(r[x] == s.collected[k]);
    }
    assert forall|x: int, y: int| 0 <= x < y < r.len() implies !distance_less(
        s.target@,
        (#[trigger] r[y]).0@,
        (#[trigger] r[x]).0@,
    ) by {
        assert(r[x] == all[x] && r[y] == all[y]);
    }
    assert forall|p: (NodeId, SocketAddr)| #[trigger]
        s.collected.contains(p) && s.gave_token(p.1) && !r.contains(p) implies r.len() == 8
        && forall|x: int|
        0 <= x < r.len() ==> !distance_less(s.target@, p.0@, (#[trigger] r[x]).0@) by {
        let k = choose|k: int| 0 <= k < s.collected.len() && s.collected[k] == p;
        lemma_filter_kept(s.collected, pred, k);
        let y = choose|y: int| 0 <= y < all.len() && all[y] == p;
        if y < r.len() {
            assert(r[y] == p);
        }
        assert forall|x: int| 0 <= x < r.len() implies !distance_less(
            s.target@,
            p.0@,
            (#[trigger] r[x]).0@,
        ) by {
            assert(r[x] == all[x]);
            assert(!distance_less(s.target@, all[y].0@, all[x].0@));
        }
    }
}

/// Every entry is, as the same node, among those that are kept once.
proof fn lemma_unique_complete(s: Seq<(NodeId, SocketAddr)>, k: int) -> (i: int)
    requires
        0 <= k < s.len(),
    ensures
        0 <= i < unique(s).len(),
        same_node(unique(s)[i], s[k]),
    decreases s.len(),
{
    let d = s.drop_last();
    let t = unique(d);
    if k < d.len() {
        let i = lemma_unique_complete(d, k);
        assert(unique(s)[i] == t[i]);
        i
    } else if t.len() > 0 && same_node(t.last(), s.last()) {
        t.len() - 1
    } else {
        t.len() as int
    }
}

/// Of nodes that are sorted and kept once, the first `n` hold all of them, by identifier, or
/// they are `n` of which none is farther than one that is left out.
pub proof fn law_pruned_first(target: Seq<u8>, s: Seq<(NodeId, SocketAddr)>, n: int, p: (
    NodeId,
    SocketAddr,
))
    requires
        0 <= n,
        s.contains(p),
    ensures
        ({
            let r = first_n(pruned(target, s), n);
            ||| exists|x: int| 0 <= x < r.len() && (#[trigger] r[x]).0 == p.0
            ||| r.len() == n && forall|x: int|
                0 <= x < r.len() ==> !distance_less(target, p.0@, (#[trigger] r[x]).0@)
        }),
{
    broadcast use vstd::seq_lib::group_to_multiset_ensures;

    let t = sort_by_distance(target, s);
    let u = pruned(target, s);
    let r = first_n(u, n);
    law_sort_same_nodes(target, s);
    law_pruned(target, s);
    assert(s.to_multiset().contains(p));
    assert(t.to_multiset().contains(p));
    assert(t.contains(p));
    let k = choose|k: int| 0 <= k < t.len() && t[k] == p;
    let i = lemma_unique_complete(t, k);
    assert(u[i].0 == p.0);
    if i < r.len() {
        assert(r[i].0 == p.0);
    } else {
        assert forall|x: int| 0 <= x < r.len() implies !distance_less(
            target,
            p.0@,
            (#[trigger] r[x]).0@,
        ) by {
            assert(r[x] == u[x]);
            assert(!distance_less(target, u[i].0@, u[x].0@));
        }
    }
}

/// The first nodes of sorted ones are sorted.
proof fn lemma_first_sorted(target: Seq<u8>, s: Seq<(NodeId, SocketAddr)>, n: int)
    requires
        sorted_by_distance(target, s),
        0 <= n,
    ensures
        sorted_by_distance(target, first_n(s, n)),
{
    let r = first_n(s, n);
    assert forall|i: int, j: int| 0 <= i < j < r.len() implies !distance_less(
        target,
        (#[trigger] r[j]).0@,
        (#[trigger] r[i]).0@,
    ) by {
        assert(r[i] == s[i] && r[j] == s[j]);
    }
}

/// The nodes that were heard of stay in order when more are heard of.
proof fn lemma_learned_ordered(s: Search, nodes: Seq<(NodeId, SocketAddr)>)
    requires
        s.ordered(),
    ensures
        s.learned(nodes).ordered(),
{
    let all = pruned(s.target@, s.collected + nodes);
    law_pruned(s.target@, s.collected + nodes);
    lemma_first_sorted(s.target@, all, MAX_KEPT as int);
    law_nearest(s, nodes);
    assert(first_n(first_n(all, MAX_KEPT as int), KBUCKET_SIZE as int) =~= first_n(
        all,
        KBUCKET_SIZE as int,
    ));
}

/// The nodes that were heard of are in order in every state of a search.
pub proof fn law_search_ordered(
    s: Search,
    ip: SocketAddr,
    token: Seq<u8>,
    nodes: Seq<(NodeId, SocketAddr)>,
)
    requires
        s.ordered(),
    ensures
        s.sent().ordered(),
        s.completed_one().ordered(),
        s.failed(ip).ordered(),
        s.replied(ip, token, nodes).ordered(),
{
    let t = s.completed_one();
    lemma_learned_ordered(Search { visited: t.visited.insert(ip, token), ..t }, nodes);
}

/// The nodes that are nearest to the target of all that were heard of: at most eight, each
/// heard of, sorted by their distance, and all that were heard of, by identifier, or eight of
/// which none is farther than one that is left out. No identifier occurs twice, but for the
/// one of zeros, which stands for one that is not known.
pub proof fn law_nearest_heard_of(
    s: Search,
    ip: SocketAddr,
    token: Seq<u8>,
    nodes: Seq<(NodeId, SocketAddr)>,
    p: (NodeId, SocketAddr),
)
    requires
        s.ordered(),
        s.collected.contains(p) || nodes.contains(p),
    ensures
        ({
            let r = s.replied(ip, token, nodes).nearest;
            &&& r.len() <= 8
            &&& forall|x: int|
                0 <= x < r.len() ==> s.collected.contains(#[trigger] r[x]) || nodes.contains(r[x])
            &&& forall|x: int, y: int|
                0 <= x < y < r.len() ==> !distance_less(
                    s.target@,
                    (#[trigger] r[y]).0@,
                    (#[trigger] r[x]).0@,
                )
            &&& forall|x: int, y: int|
                0 <= x < y < r.len() && (#[trigger] r[x]).0 == (#[trigger] r[y]).0 ==> forall|
                    i: int,
                | 0 <= i < 20 ==> r[x].0@[i] == 0u8
            &&& (exists|x: int| 0 <= x < r.len() && (#[trigger] r[x]).0 == p.0) || (r.len() == 8
                && forall|x: int|
                0 <= x < r.len() ==> !distance_less(s.target@, p.0@, (#[trigger] r[x]).0@))
        }),
{
    let t = s.completed_one();
    let before = Search { visited: t.visited.insert(ip, token), ..t };
    let heard = s.collected + nodes;
    let r = s.replied(ip, token, nodes).nearest;
    law_search_ordered(s, ip, token, nodes);
    law_nearest(before, nodes);
    law_pruned(s.target@, heard);
    lemma_first_sorted(s.target@, pruned(s.target@, heard), 8);
    assert(r == first_n(pruned(s.target@, heard), 8));
    if s.collected.contains(p) {
        let i = choose|i: int| 0 <= i < s.collected.len() && s.collected[i] == p;
        assert(heard[i] == p);
    } else {
        let i = choose|i: int| 0 <= i < nodes.len() && nodes[i] == p;
        assert(heard[s.collected.len() + i] == p);
    }
    law_pruned_first(s.target@, heard, 8, p);
    assert forall|x: int| 0 <= x < r.len() implies s.collected.contains(#[trigger] r[x])
        || nodes.contains(r[x]) by {
        assert(r[x] == pruned(s.target@, heard)[x]);
        let i = choose|i: int| 0 <= i < heard.len() && heard[i] == r[x];
        if i < s.collected.len() {
            assert(s.collected[i] == r[x]);
        } else {
            assert(nodes[i - s.collected.len()] == r[x]);
        }
    }
    assert forall|x: int, y: int|
        0 <= x < y < r.len() && (#[trigger] r[x]).0 == (#[trigger] r[y]).0 implies forall|i: int|
        0 <= i < 20 ==> r[x].0@[i] == 0u8 by {
        assert(r[x] == pruned(s.target@, heard)[x] && r[y] == pruned(s.target@, heard)[y]);
        if r[x].0@ != Seq::new(20, |k: int| 0u8) {
            law_pruned_distinct(s.target, heard, x, y);
        }
    }
}

/// What a reply does to a search: its address was asked and gave its token, a query is no
/// longer on its way, and what is to be asked are nodes that were to be asked, and nodes that
/// it told of whose addresses are of the session's family and were not asked; each of these
/// is there, by identifier, or there are at least 64 of which none is farther. What is to be
/// asked is sorted by the distance to the target.
pub proof fn law_replied(
    s: Search,
    ip: SocketAddr,
    token: Seq<u8>,
    nodes: Seq<(NodeId, SocketAddr)>,
    p: (NodeId, SocketAddr),
)
    requires
        s.in_flight > 0,
    ensures
        ({
            let r = s.replied(ip, token, nodes);
            let ask = |n: (NodeId, SocketAddr)|
                s.queue.contains(n) || (nodes.contains(n) && n.1 is V4 == s.ipv4 && n.1 != ip
                    && !s.visited.dom().contains(n.1));
            &&& r.target == s.target
            &&& r.ipv4 == s.ipv4
            &&& r.completed == s.completed + 1
            &&& r.in_flight == s.in_flight - 1
            &&& r.visited == s.visited.insert(ip, token)
            &&& r.gave_token(ip) == (token.len() > 0)
            &&& r.queue.contains(p) ==> ask(p)
            &&& ask(p) ==> (exists|x: int| 0 <= x < r.queue.len() && (#[trigger] r.queue[x]).0
                == p.0) || (r.queue.len() >= 64 && forall|x: int|
                0 <= x < r.queue.len() ==> !distance_less(
                    s.target@,
                    p.0@,
                    (#[trigger] r.queue[x]).0@,
                ))
            &&& forall|x: int, y: int|
                0 <= x < y < r.queue.len() ==> !distance_less(
                    s.target@,
                    (#[trigger] r.queue[y]).0@,
                    (#[trigger] r.queue[x]).0@,
                )
        }),
{
    let r = s.replied(ip, token, nodes);
    let t = s.completed_one();
    let before = Search { visited: t.visited.insert(ip, token), ..t };
    let pred = |node: (NodeId, SocketAddr)| before.askable(node);
    let all = s.queue + nodes.filter(pred);
    law_pruned(s.target@, all);
    lemma_first_sorted(s.target@, pruned(s.target@, all), 64);
    let whole = pruned(s.target@, all);
    assert(r.queue == whole || r.queue == first_n(whole, 64));
    assert(r.visited == s.visited.insert(ip, token));
    if r.queue.contains(p) {
        let x = choose|x: int| 0 <= x < r.queue.len() && r.queue[x] == p;
        assert(whole[x] == p);
        let i = choose|i: int| 0 <= i < all.len() && all[i] == p;
        if i < s.queue.len() {
            assert(s.queue[i] == p);
        } else {
            let k = lemma_filter_at(nodes, pred, i - s.queue.len());
            assert(nodes[k] == p);
        }
    }
    if s.queue.contains(p) || (nodes.contains(p) && before.askable(p)) {
        if s.queue.contains(p) {
            let i = choose|i: int| 0 <= i < s.queue.len() && s.queue[i] == p;
            assert(all[i] == p);
        } else {
            let k = choose|k: int| 0 <= k < nodes.len() && nodes[k] == p;
            lemma_filter_kept(nodes, pred, k);
            let f = nodes.filter(pred);
            let i = choose|i: int| 0 <= i < f.len() && f[i] == p;
            assert(all[s.queue.len() + i] == p);
        }
        law_pruned_first(s.target@, all, 64, p);
        law_pruned_first(s.target@, all, whole.len() as int, p);
        assert(first_n(whole, whole.len() as int) == whole);
        if r.queue == whole {
            let first = first_n(whole, 64);
            if exists|x: int| 0 <= x < first.len() && (#[trigger] first[x]).0 == p.0 {
                let x = choose|x: int| 0 <= x < first.len() && (#[trigger] first[x]).0 == p.0;
                assert(whole[x].0 == p.0);
            }
        }
    }
}

/// How a search comes to its end: replies in a row that leave the eight nearest nodes as they
/// were are counted, one that changes them starts anew, and nine of them end the search.
pub proof fn law_convergence(
    s: Search,
    ip: SocketAddr,
    token: Seq<u8>,
    nodes: Seq<(NodeId, SocketAddr)>,
)
    requires
        s.ordered(),
        !s.converged,
    ensures
        ({
            let r = s.replied(ip, token, nodes);
            let same = s.nearest.len() == 8 && r.nearest == s.nearest;
            &&& r.convergence == (if same {
                s.convergence + 1
            } else {
                0
            })
            &&& r.converged == (same && s.convergence + 1 >= 9)
        }),
{
    let t = s.completed_one();
    let before = Search { visited: t.visited.insert(ip, token), ..t };
    let best = first_n(pruned(s.target@, s.collected + nodes), 8);
    law_nearest(before, nodes);
    let len = if s.nearest.len() < best.len() {
        s.nearest.len() as int
    } else {
        best.len() as int
    };
    assert(s.nearest.len() <= 8);
    if s.nearest.len() == 8 && best.len() == 8 {
        assert(s.nearest.take(len) =~= s.nearest);
        assert(best.take(len) =~= best);
    }
}

/// A query that failed leaves its address without a token, and one that ended without a
/// result as it was; either is no longer on its way, and nothing else changes.
pub proof fn law_query_ended(s: Search, ip: SocketAddr)
    requires
        s.in_flight > 0,
    ensures
        s.completed_one() == (Search {
            completed: s.completed + 1,
            in_flight: (s.in_flight - 1) as nat,
            ..s
        }),
        s.failed(ip).visited.dom().contains(ip),
        !s.failed(ip).gave_token(ip),
        forall|other: SocketAddr|
            other != ip ==> #[trigger] s.failed(ip).visited.dom().contains(other)
                == s.visited.dom().contains(other) && s.failed(ip).visited[other]
                == s.visited[other],
        s.failed(ip) == (Search { visited: s.failed(ip).visited, ..s.completed_one() }),
{
}

/// What is asked next are the first of those to be asked; they are then on their way and no
/// longer to be asked. At most ten are on their way at once, and fewer only where there is
/// nothing left to be asked.
pub proof fn law_sent(s: Search)
    requires
        s.in_flight <= 10,
    ensures
        ({
            let asked = s.queue.take(s.sendable() as int);
            let r = s.sent();
            &&& asked + r.queue == s.queue
            &&& r.in_flight == s.in_flight + asked.len()
            &&& r.in_flight <= 10
            &&& r.in_flight == 10 || r.queue.len() == 0
            &&& r == (Search { queue: r.queue, in_flight: r.in_flight, ..s })
        }),
{
    assert(s.queue.take(s.sendable() as int) + s.sent().queue =~= s.queue);
}

/// A search is over once it converged, once 48 queries have ended, or once there is nothing
/// to be asked and nothing on its way.
pub proof fn law_finished(s: Search)
    ensures
        s.finished() <==> s.converged || s.completed >= 48 || (s.queue.len() == 0 && s.in_flight
            == 0),
{
}

/// Of nodes with the same identifier one behind the other the first is kept; those whose
/// identifier is not known, which is written as zeros, are the same where their addresses
/// are.
pub proof fn law_unique(s: Seq<(NodeId, SocketAddr)>, x: (NodeId, SocketAddr))
    ensures
        unique(seq![x]) == seq![x],
        ({
            let r = unique(s);
            let zeros = Seq::new(20, |i: int| 0u8);
            let known = r.len() > 0 && r.last().0 == x.0 && (x.0@ != zeros || r.last().1 == x.1);
            &&& known ==> unique(s.push(x)) == r
            &&& !known ==> unique(s.push(x)) == r.push(x)
        }),
{
    let one = seq![x];
    assert(one.drop_last() =~= Seq::<(NodeId, SocketAddr)>::empty());
    assert(unique(one.drop_last()) == Seq::<(NodeId, SocketAddr)>::empty());
    assert(unique(one) =~= one);
    assert(s.push(x).drop_last() =~= s);
}

/// A search for peers is over as one for a node is, and also once a hundred peers were found.
pub proof fn law_peers_finished(s: GetPeersSearch)
    ensures
        s.finished() <==> s.peers().len() >= 100 || s.search().converged || s.search().completed
            >= 48 || (s.search().queue.len() == 0 && s.search().in_flight == 0),
{
}

} // verus!
