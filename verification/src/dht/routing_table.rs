//! The routing table of the DHT.
//!
//! The first bucket is for the nodes that are farthest from the own identifier, the last
//! for the nearest. Only the last bucket can be split.

use crate::clock::system_time;
use crate::kad::addr::SocketAddr;
use crate::kad::addr_set::AddrSet;
use crate::kad::bucket::{
    all_nodes, bucket_views, collect_nodes, count_shared_bits, find_nearest, fresh_node,
    in_buckets, law_nearer_in_bucket, law_nearest, lemma_all_nodes_has, lemma_all_nodes_place,
    lemma_node_index, lemma_pair_index, lemma_shared_bits_bound, nearest, node_index,
    pair_index, shared_bits, Bucket, KBucket, Node, NodeStatus, KBUCKET_SIZE, MAX_BUCKETS,
};
use crate::kad::distance::{law_sort_same_nodes, sort_by_distance, sort_nodes};
use crate::kad::nodeid::{bit_at, distance_less, law_shared_prefix, NodeId};
use vstd::prelude::*;

verus! {

/// Why a node was not put into the table.
#[derive(Debug, Clone, Copy, PartialEq, Eq, Structural)]
pub enum UpdateNodeError {
    Failed,
    NeedSplit,
}

/// Where a node belongs once the last bucket is split.
#[derive(Debug, Clone, Copy, PartialEq, Eq, Structural)]
enum SplitBucketPosition {
    CurrentBucket,
    NewBucket,
    WrongBucket(usize),
}

/// The routing table of the DHT.
#[derive(Debug)]
pub struct RoutingTable {
    routers: AddrSet,
    ips: AddrSet,
    buckets: Vec<KBucket>,
    id: NodeId,
}

/// What a routing table holds: the own identifier, the addresses of the routers, the
/// addresses that are taken, and the buckets.
#[verifier::ext_equal]
pub struct Table {
    pub id: NodeId,
    pub routers: Set<SocketAddr>,
    pub ips: Set<SocketAddr>,
    pub buckets: Seq<Bucket>,
}

impl View for RoutingTable {
    type V = Table;

    closed spec fn view(&self) -> Table {
        Table {
            id: self.id,
            routers: self.routers@,
            ips: self.ips@,
            buckets: bucket_views(self.buckets@),
        }
    }
}

/// The bucket, of `len` buckets, in which an identifier belongs.
pub open spec fn bucket_index(id: NodeId, len: int, target: NodeId) -> int {
    let shared = shared_bits(id, target);
    if shared < len - 1 {
        shared
    } else {
        len - 1
    }
}

/// Whether all bits of an identifier are clear.
pub open spec fn is_zero_id(id: NodeId) -> bool {
    id@ == Seq::new(20, |i: int| 0u8)
}

impl Table {
    /// The number of buckets is in range, every node is in the bucket where it belongs,
    /// no bucket is too full, no two nodes have the same address, the addresses that are
    /// taken are exactly those of the nodes, and neither the own identifier nor the one of
    /// zeros is that of a node.
    pub open spec fn wf(self) -> bool {
        &&& 1 <= self.buckets.len() <= MAX_BUCKETS
        &&& forall|i: int|
            0 <= i < self.buckets.len() ==> (#[trigger] self.buckets[i]).nodes.len()
                <= KBUCKET_SIZE
        &&& forall|i: int, j: int|
            self.has(i, j) ==> self.node_ok(i, #[trigger] self.buckets[i].nodes[j])
        &&& forall|i: int, j: int, k: int, l: int|
            self.has(i, j) && self.has(k, l) && (i != k || j != l)
                ==> (#[trigger] self.buckets[i].nodes[j]).ip != (
            #[trigger] self.buckets[k].nodes[l]).ip
        &&& self.exact()
    }

    /// Whether every address that is taken is that of a node.
    pub open spec fn exact(self) -> bool {
        forall|ip: SocketAddr| #[trigger] self.ips.contains(ip) ==> self.has_ip(ip)
    }

    /// Whether a node has that address.
    pub open spec fn has_ip(self, ip: SocketAddr) -> bool {
        exists|i: int, j: int| self.has(i, j) && (#[trigger] self.buckets[i].nodes[j]).ip == ip
    }

    /// Whether there is a node at position `j` of bucket `i`.
    pub open spec fn has(self, i: int, j: int) -> bool {
        0 <= i < self.buckets.len() && 0 <= j < self.buckets[i].nodes.len()
    }

    /// What holds of a node in bucket `i`.
    pub open spec fn node_ok(self, i: int, node: Node) -> bool {
        &&& bucket_index(self.id, self.buckets.len() as int, node.id) == i
        &&& self.ips.contains(node.ip)
        &&& node.id != self.id
        &&& !is_zero_id(node.id)
    }

    /// The bucket in which an identifier belongs.
    pub open spec fn index_of(self, target: NodeId) -> int {
        bucket_index(self.id, self.buckets.len() as int, target)
    }

    /// The position of a node in the bucket where it belongs.
    pub open spec fn find(self, target: NodeId) -> Option<int> {
        node_index(self.buckets[self.index_of(target)].nodes, target)
    }

    /// The position of a node with that address in the bucket where it belongs.
    pub open spec fn find_at(self, target: NodeId, ip: SocketAddr) -> Option<int> {
        pair_index(self.buckets[self.index_of(target)].nodes, target, ip)
    }

    /// What `update_node` returns: a node that is in the table is updated.
    pub open spec fn update_result(self, target: NodeId, ip: SocketAddr) -> Result<
        (),
        UpdateNodeError,
    > {
        let b = self.index_of(target);
        let nodes = self.buckets[b].nodes;
        if is_zero_id(target) {
            Err(UpdateNodeError::Failed)
        } else if self.ips.contains(ip) {
            match self.find_at(target, ip) {
                Some(_) => Ok(()),
                None => Err(UpdateNodeError::Failed),
            }
        } else if nodes.len() == KBUCKET_SIZE {
            if b != self.buckets.len() - 1 || self.buckets.len() == MAX_BUCKETS {
                Err(UpdateNodeError::Failed)
            } else {
                Err(UpdateNodeError::NeedSplit)
            }
        } else if target == self.id || self.routers.contains(ip) {
            Err(UpdateNodeError::Failed)
        } else {
            Ok(())
        }
    }

    /// The table after `update_node` at `now`: a node that is known is good again and was
    /// just seen, a node that is not is put at the end of its bucket.
    pub open spec fn update(self, target: NodeId, ip: SocketAddr, now: u128) -> Table {
        let b = self.index_of(target);
        let nodes = self.buckets[b].nodes;
        if self.update_result(target, ip) is Err {
            self
        } else if self.ips.contains(ip) {
            Table {
                buckets: self.buckets.update(
                    b,
                    Bucket {
                        nodes: nodes.update(
                            self.find_at(target, ip)->Some_0,
                            fresh_node(target, ip, now),
                        ),
                        last_seen: now,
                    },
                ),
                ..self
            }
        } else {
            Table {
                buckets: self.buckets.update(
                    b,
                    Bucket { nodes: nodes.push(fresh_node(target, ip, now)), last_seen: now },
                ),
                ips: self.ips.insert(ip),
                ..self
            }
        }
    }

    /// Whether a node of the last bucket stays there when it is split.
    pub open spec fn stays(self, node: Node) -> bool {
        bucket_index(self.id, self.buckets.len() as int + 1, node.id) == self.buckets.len() - 1
    }

    /// The table with its last bucket split: the nodes that are nearer go to a new bucket.
    pub open spec fn split(self) -> Table {
        if self.buckets.len() == MAX_BUCKETS {
            self
        } else {
            let last = self.buckets.last();
            Table {
                buckets: self.buckets.update(
                    self.buckets.len() - 1,
                    Bucket {
                        nodes: last.nodes.filter(|node: Node| self.stays(node)),
                        last_seen: last.last_seen,
                    },
                ).push(
                    Bucket {
                        nodes: last.nodes.filter(|node: Node| !self.stays(node)),
                        last_seen: last.last_seen,
                    },
                ),
                ..self
            }
        }
    }

    /// The table in which `add_node` tries the last update: the last bucket is split for
    /// as long as there is no room.
    pub open spec fn split_for(self, target: NodeId, ip: SocketAddr) -> Table
        decreases MAX_BUCKETS - self.buckets.len(),
    {
        if self.update_result(target, ip) == Err::<(), UpdateNodeError>(UpdateNodeError::NeedSplit)
            && 0 < self.buckets.len() < MAX_BUCKETS {
            self.split().split_for(target, ip)
        } else {
            self
        }
    }

    /// The table without the node of that id.
    pub open spec fn remove(self, target: NodeId) -> Table {
        match self.find(target) {
            Some(p) => {
                let b = self.index_of(target);
                let bucket = self.buckets[b];
                Table {
                    buckets: self.buckets.update(
                        b,
                        Bucket {
                            nodes: bucket.nodes.update(p, bucket.nodes.last()).drop_last(),
                            ..bucket
                        },
                    ),
                    ips: self.ips.remove(bucket.nodes[p].ip),
                    ..self
                }
            },
            None => self,
        }
    }

    /// The table after the node of that id did not answer: from good to questionable,
    /// from there to bad, from there out of the table.
    pub open spec fn timeout(self, target: NodeId) -> Table {
        match self.find(target) {
            Some(p) => {
                let b = self.index_of(target);
                let bucket = self.buckets[b];
                let node = bucket.nodes[p];
                let (nodes, ips) = match node.status {
                    NodeStatus::Good => (
                        bucket.nodes.update(p, Node { status: NodeStatus::Questionable, ..node }),
                        self.ips,
                    ),
                    NodeStatus::Questionable => (
                        bucket.nodes.update(p, Node { status: NodeStatus::Bad, ..node }),
                        self.ips,
                    ),
                    NodeStatus::Bad => (bucket.nodes.remove(p), self.ips.remove(node.ip)),
                };
                Table { buckets: self.buckets.update(b, Bucket { nodes, ..bucket }), ips, ..self }
            },
            None => self,
        }
    }

    /// Whether the node at position `j` of bucket `i` is the first that was seen longest ago.
    pub open spec fn is_oldest(self, i: int, j: int) -> bool {
        &&& self.has(i, j)
        &&& forall|k: int, l: int|
            self.has(k, l) ==> {
                let node = #[trigger] self.buckets[k].nodes[l];
                if k < i || (k == i && l < j) {
                    self.buckets[i].nodes[j].last_seen < node.last_seen
                } else {
                    self.buckets[i].nodes[j].last_seen <= node.last_seen
                }
            }
    }

    /// What `next_refresh_node` returns at `now`, where the oldest node is that at
    /// position `j` of bucket `i`.
    pub open spec fn refresh_result(self, i: int, j: int, min_duration: u128, now: u128) -> Option<
        (NodeId, SocketAddr, u128),
    > {
        let node = self.buckets[i].nodes[j];
        if now < node.last_seen || now - node.last_seen < min_duration {
            None
        } else {
            Some((node.id, node.ip, (now - node.last_seen) as u128))
        }
    }

    /// The table in which the node at position `j` of bucket `i` was seen at `now`.
    pub open spec fn refresh(self, i: int, j: int, now: u128) -> Table {
        let bucket = self.buckets[i];
        Table {
            buckets: self.buckets.update(
                i,
                Bucket {
                    nodes: bucket.nodes.update(j, Node { last_seen: now, ..bucket.nodes[j] }),
                    ..bucket
                },
            ),
            ..self
        }
    }

    /// The nodes that are closest to a target, from the nearest on, not more than a bucket
    /// holds.
    pub open spec fn closest(self, target: NodeId) -> Seq<(NodeId, SocketAddr)> {
        nearest(self.buckets, target)
    }

    /// All nodes, bucket by bucket.
    pub open spec fn nodes(self) -> Seq<(NodeId, SocketAddr)> {
        all_nodes(self.buckets, self.buckets.len() as int)
    }

    /// The buckets among the first `n` that hold fewer than `len` nodes.
    pub open spec fn small_buckets(self, len: usize, n: int) -> Seq<usize>
        decreases n,
    {
        if n <= 0 {
            seq![]
        } else if self.buckets[n - 1].nodes.len() < len {
            self.small_buckets(len, n - 1).push((n - 1) as usize)
        } else {
            self.small_buckets(len, n - 1)
        }
    }
}

impl RoutingTable {
    /// Whether the table is well formed.
    pub closed spec fn wf(&self) -> bool {
        self.routers.wf() && self.ips.wf() && self@.wf()
    }

    /// A well-formed table holds a well-formed table.
    pub proof fn lemma_wf(&self)
        requires
            self.wf(),
        ensures
            self@.wf(),
    {
    }

    /// A table with one empty bucket.
    pub fn new(id: NodeId) -> (r: RoutingTable)
        ensures
            r.wf(),
            r@.wf(),
            r@.id == id,
            r@.routers == Set::<SocketAddr>::empty(),
            r@.ips == Set::<SocketAddr>::empty(),
            r@.buckets.len() == 1,
            r@.buckets[0].nodes == Seq::<Node>::empty(),
    {
        let mut buckets: Vec<KBucket> = Vec::new();
        buckets.push(KBucket::new());
        RoutingTable { routers: AddrSet::new(), ips: AddrSet::new(), buckets, id }
    }

    /// The own identifier.
    pub fn id(&self) -> (r: NodeId)
        ensures
            r == self@.id,
    {
        self.id
    }

    /// How many buckets there are.
    pub fn buckets_len(&self) -> (r: usize)
        ensures
            r == self@.buckets.len(),
    {
        self.buckets.len()
    }

    /// The bucket in which an identifier belongs.
    pub fn calc_bucket_index(&self, target: NodeId) -> (r: usize)
        requires
            self.wf(),
        ensures
            r == self@.index_of(target),
            r < self@.buckets.len(),
    {
        let shared: usize = count_shared_bits(&self.id, &target);
        let last: usize = self.buckets.len() - 1;
        if shared < last {
            shared
        } else {
            last
        }
    }

    /// Where a node belongs after a split, of which there are `buckets_len` buckets before.
    fn calc_node_pos_after_split(self_id: NodeId, buckets_len: usize, target: NodeId) -> (r:
        SplitBucketPosition)
        requires
            1 <= buckets_len < MAX_BUCKETS,
        ensures
            ({
                let i = bucket_index(self_id, buckets_len + 1, target);
                if i == buckets_len {
                    r == SplitBucketPosition::NewBucket
                } else if i == buckets_len - 1 {
                    r == SplitBucketPosition::CurrentBucket
                } else {
                    r == SplitBucketPosition::WrongBucket(i as usize)
                }
            }),
    {
        let shared: usize = count_shared_bits(&self_id, &target);
        let idx: usize = if shared < buckets_len {
            shared
        } else {
            buckets_len
        };
        if idx == buckets_len {
            SplitBucketPosition::NewBucket
        } else if idx == buckets_len - 1 {
            SplitBucketPosition::CurrentBucket
        } else {
            SplitBucketPosition::WrongBucket(idx)
        }
    }

    /// The bucket and position of the node with that id.
    fn index_node(&self, target: NodeId) -> (r: Option<(usize, usize)>)
        requires
            self.wf(),
        ensures
            match r {
                Some((b, p)) => b == self@.index_of(target) && self@.find(target) == Some(p as int)
                    && b < self.buckets@.len() && p < self.buckets@[b as int].nodes@.len()
                    && self.buckets@[b as int].nodes@[p as int].id == target,
                None => self@.find(target) is None,
            },
    {
        let b: usize = self.calc_bucket_index(target);
        match self.buckets[b].index_of(&target) {
            Some(p) => Some((b, p)),
            None => None,
        }
    }

    /// The closest nodes of the target, from the nearest on, not more than a bucket holds.
    pub fn find_node(&self, target: NodeId) -> (r: Vec<(NodeId, SocketAddr)>)
        requires
            self.wf(),
        ensures
            r@ == self@.closest(target),
    {
        find_nearest(&self.buckets, target)
    }

    /// Updates the node that was just heard of, or puts it into the table.
    pub fn update_node(&mut self, target: NodeId, ip: &SocketAddr) -> (r: Result<
        (),
        UpdateNodeError,
    >)
        requires
            old(self).wf(),
        ensures
            final(self).wf(),
            r == old(self)@.update_result(target, *ip),
            exists|now: u128| final(self)@ == old(self)@.update(target, *ip, now),
    {
        let now: u128 = system_time();
        let r = self.update_node_at(target, ip, now);
        assert(self@ == old(self)@.update(target, *ip, now));
        r
    }

    /// Updates the node that was heard of at `now`, or puts it into the table.
    pub fn update_node_at(&mut self, target: NodeId, ip: &SocketAddr, now: u128) -> (r: Result<
        (),
        UpdateNodeError,
    >)
        requires
            old(self).wf(),
        ensures
            final(self).wf(),
            r == old(self)@.update_result(target, *ip),
            final(self)@ == old(self)@.update(target, *ip, now),
    {
        proof {
            law_update_wf(self@, target, *ip, now);
        }
        if target.is_zero() {
            return Err(UpdateNodeError::Failed);
        }
        let idx: usize = self.calc_bucket_index(target);
        let buckets_len: usize = self.buckets.len();
        if self.ips.contains(ip) {
            let p: usize = match self.buckets[idx].index_of_pair(&target, ip) {
                Some(p) => p,
                None => {
                    return Err(UpdateNodeError::Failed);
                },
            };
            self.buckets[idx].nodes[p] = Node::new_at(target, *ip, now);
            self.buckets[idx].last_seen = now;
            assert(self@ =~= old(self)@.update(target, *ip, now));
            return Ok(());
        }
        if self.buckets[idx].nodes.len() == KBUCKET_SIZE {
            if idx != buckets_len - 1 || buckets_len == MAX_BUCKETS {
                return Err(UpdateNodeError::Failed);
            }
            return Err(UpdateNodeError::NeedSplit);
        }
        if target == self.id || self.routers.contains(ip) {
            return Err(UpdateNodeError::Failed);
        }
        self.buckets[idx].nodes.push(Node::new_at(target, *ip, now));
        self.buckets[idx].last_seen = now;
        self.ips.insert(*ip);
        assert(self@ =~= old(self)@.update(target, *ip, now));
        Ok(())
    }

    /// Puts a node into the table, or updates it, and splits buckets where that makes room.
    pub fn add_node(&mut self, target: NodeId, ip: &SocketAddr) -> (r: Result<
        (),
        UpdateNodeError,
    >)
        requires
            old(self).wf(),
        ensures
            final(self).wf(),
            r == old(self)@.split_for(target, *ip).update_result(target, *ip),
            r != Err::<(), UpdateNodeError>(UpdateNodeError::NeedSplit),
            exists|now: u128|
                final(self)@ == #[trigger] old(self)@.split_for(target, *ip).update(
                    target,
                    *ip,
                    now,
                ),
    {
        let now: u128 = system_time();
        let r = self.add_node_at(target, ip, now);
        assert(self@ == old(self)@.split_for(target, *ip).update(target, *ip, now));
        r
    }

    /// As `add_node`, at `now`.
    pub fn add_node_at(&mut self, target: NodeId, ip: &SocketAddr, now: u128) -> (r: Result<
        (),
        UpdateNodeError,
    >)
        requires
            old(self).wf(),
        ensures
            final(self).wf(),
            r == old(self)@.split_for(target, *ip).update_result(target, *ip),
            r != Err::<(), UpdateNodeError>(UpdateNodeError::NeedSplit),
            final(self)@ == old(self)@.split_for(target, *ip).update(target, *ip, now),
    {
        loop
            invariant
                self.wf(),
                self@.split_for(target, *ip) == old(self)@.split_for(target, *ip),
            decreases MAX_BUCKETS - self@.buckets.len(),
        {
            match self.update_node_at(target, ip, now) {
                Ok(()) => {
                    return Ok(());
                },
                Err(UpdateNodeError::NeedSplit) => {
                    self.split_bucket();
                },
                Err(UpdateNodeError::Failed) => {
                    return Err(UpdateNodeError::Failed);
                },
            }
        }
    }

    /// Takes the node of that id out of the table.
    pub fn remove_node(&mut self, target: NodeId) -> (r: Option<(NodeId, SocketAddr)>)
        requires
            old(self).wf(),
        ensures
            final(self).wf(),
            final(self)@ == old(self)@.remove(target),
            r == (match old(self)@.find(target) {
                Some(p) => Some(
                    (target, old(self)@.buckets[old(self)@.index_of(target)].nodes[p].ip),
                ),
                None => None,
            }),
    {
        proof {
            law_remove_wf(self@, target);
        }
        match self.index_node(target) {
            Some((b, p)) => {
                let node: Node = self.buckets[b].nodes.swap_remove(p);
                self.ips.remove(&node.ip);
                assert(self@ =~= old(self)@.remove(target));
                Some((node.id, node.ip))
            },
            None => None,
        }
    }

    /// Marks that the node of that id did not answer.
    pub fn node_timeout(&mut self, target: NodeId)
        requires
            old(self).wf(),
        ensures
            final(self).wf(),
            final(self)@ == old(self)@.timeout(target),
    {
        proof {
            law_timeout_wf(self@, target);
        }
        match self.index_node(target) {
            Some((b, p)) => {
                match self.buckets[b].nodes[p].status {
                    NodeStatus::Questionable => {
                        self.buckets[b].nodes[p].status = NodeStatus::Bad;
                    },
                    NodeStatus::Good => {
                        self.buckets[b].nodes[p].status = NodeStatus::Questionable;
                    },
                    NodeStatus::Bad => {
                        let node: Node = self.buckets[b].nodes.remove(p);
                        self.ips.remove(&node.ip);
                    },
                }
            },
            None => {},
        }
        assert(self@ =~= old(self)@.timeout(target));
    }

    /// Splits the last bucket, unless there are as many buckets as there can be.
    pub fn split_bucket(&mut self)
        requires
            old(self).wf(),
        ensures
            final(self).wf(),
            final(self)@ == old(self)@.split(),
    {
        proof {
            law_split_wf(self@);
        }
        let buckets_len: usize = self.buckets.len();
        if buckets_len == MAX_BUCKETS {
            return;
        }
        let last: usize = buckets_len - 1;
        let ghost t = self@;
        let ghost nodes = t.buckets[last as int].nodes;
        let ghost pred = |node: Node| t.stays(node);
        let ghost not_pred = |node: Node| !t.stays(node);
        let mut current: Vec<Node> = Vec::new();
        let mut new_nodes: Vec<Node> = Vec::new();
        let mut i: usize = 0;
        proof {
            reveal(Seq::filter);
            assert(nodes.take(0).filter(pred) =~= seq![]);
            assert(nodes.take(0).filter(not_pred) =~= seq![]);
        }
        while i < self.buckets[last].nodes.len()
            invariant
                *self == *old(self),
                t == self@,
                1 <= buckets_len < MAX_BUCKETS,
                buckets_len == self.buckets@.len(),
                last == buckets_len - 1,
                nodes == self.buckets@[last as int].nodes@,
                i <= nodes.len(),
                pred == (|node: Node| t.stays(node)),
                not_pred == (|node: Node| !t.stays(node)),
                current@ == nodes.take(i as int).filter(pred),
                new_nodes@ == nodes.take(i as int).filter(not_pred),
            decreases nodes.len() - i,
        {
            let node: Node = self.buckets[last].nodes[i];
            proof {
                reveal(Seq::filter);
                assert(nodes.take(i + 1).drop_last() =~= nodes.take(i as int));
                assert(nodes.take(i + 1).last() == node);
            }
            match RoutingTable::calc_node_pos_after_split(self.id, buckets_len, node.id) {
                SplitBucketPosition::CurrentBucket => {
                    current.push(node);
                },
                SplitBucketPosition::NewBucket => {
                    new_nodes.push(node);
                },
                SplitBucketPosition::WrongBucket(_) => {
                    new_nodes.push(node);
                },
            }
            i += 1;
        }
        assert(nodes.take(i as int) =~= nodes);
        let last_seen: u128 = self.buckets[last].last_seen;
        self.buckets[last].nodes = current;
        self.buckets.push(KBucket { nodes: new_nodes, last_seen });
        assert(self@ =~= t.split());
    }

    /// The node that was seen longest ago, where that is at least `min_duration`
    /// nanoseconds; it then counts as seen, so that it is not picked twice.
    pub fn next_refresh_node(&mut self, min_duration: u128) -> (r: Option<
        (NodeId, SocketAddr, u128),
    >)
        requires
            old(self).wf(),
        ensures
            final(self).wf(),
            exists|now: u128|
                #[trigger] refreshed(old(self)@, min_duration, now, r, final(self)@),
    {
        let now: u128 = system_time();
        let r = self.next_refresh_node_at(min_duration, now);
        assert(refreshed(old(self)@, min_duration, now, r, self@));
        r
    }

    /// As `next_refresh_node`, at `now`.
    pub fn next_refresh_node_at(&mut self, min_duration: u128, now: u128) -> (r: Option<
        (NodeId, SocketAddr, u128),
    >)
        requires
            old(self).wf(),
        ensures
            final(self).wf(),
            refreshed(old(self)@, min_duration, now, r, final(self)@),
    {
        let mut best: Option<(usize, usize)> = None;
        let mut b: usize = 0;
        while b < self.buckets.len()
            invariant
                *self == *old(self),
                b <= self.buckets@.len(),
                oldest_before(self@, best, b as int, 0),
            decreases self.buckets@.len() - b,
        {
            let mut p: usize = 0;
            while p < self.buckets[b].nodes.len()
                invariant
                    *self == *old(self),
                    b < self.buckets@.len(),
                    p <= self.buckets@[b as int].nodes@.len(),
                    oldest_before(self@, best, b as int, p as int),
                decreases self.buckets@[b as int].nodes@.len() - p,
            {
                assert(self@.has(b as int, p as int));
                assert(self@.buckets[b as int].nodes[p as int] == self.buckets@[b as int].nodes@[p as int]);
                match best {
                    Some((i, j)) => {
                        assert(self@.has(i as int, j as int));
                        assert(self@.buckets[i as int].nodes[j as int] == self.buckets@[i as int].nodes@[j as int]);
                        if self.buckets[b].nodes[p].last_seen < self.buckets[i].nodes[j].last_seen {
                            best = Some((b, p));
                        }
                    },
                    None => {
                        best = Some((b, p));
                    },
                }
                p += 1;
            }
            proof {
                lemma_oldest_next_bucket(self@, best, b as int, p as int);
            }
            b += 1;
        }
        match best {
            Some((i, j)) => {
                assert(self@.is_oldest(i as int, j as int));
                proof {
                    lemma_oldest_unique(self@, i as int, j as int);
                    law_refresh_wf(self@, i as int, j as int, now);
                }
                let node: Node = self.buckets[i].nodes[j];
                assert(node == self@.buckets[i as int].nodes[j as int]);
                if now < node.last_seen {
                    return None;
                }
                let duration: u128 = now - node.last_seen;
                if duration < min_duration {
                    return None;
                }
                self.buckets[i].nodes[j].last_seen = now;
                assert(self@ =~= old(self)@.refresh(i as int, j as int, now));
                Some((node.id, node.ip, duration))
            },
            None => None,
        }
    }

    /// The buckets that hold fewer than `len` nodes.
    pub fn less_node_buckets_indexes(&self, len: usize) -> (r: Vec<usize>)
        ensures
            r@ == self@.small_buckets(len, self@.buckets.len() as int),
    {
        let mut res: Vec<usize> = Vec::new();
        let mut i: usize = 0;
        while i < self.buckets.len()
            invariant
                i <= self.buckets@.len(),
                res@ == self@.small_buckets(len, i as int),
            decreases self.buckets@.len() - i,
        {
            if self.buckets[i].nodes.len() < len {
                res.push(i);
            }
            i += 1;
        }
        res
    }

    /// Marks an address as that of a router, which is never put into the table.
    pub fn add_router(&mut self, ip: &SocketAddr)
        ensures
            old(self).wf() ==> final(self).wf(),
            final(self)@ == (Table { routers: old(self)@.routers.insert(*ip), ..old(self)@ }),
    {
        self.routers.insert(*ip);
        assert(self@ =~= (Table { routers: old(self)@.routers.insert(*ip), ..old(self)@ }));
    }

    /// How many nodes there are in the table.
    pub fn nodes_len(&self) -> (r: usize)
        requires
            self.wf(),
        ensures
            r == self@.nodes().len(),
    {
        proof {
            law_nodes_len(self@);
        }
        self.ips.len()
    }

    /// All nodes, from the closest to the farthest.
    pub fn iter(&self) -> (r: Vec<(NodeId, SocketAddr)>)
        ensures
            r@ == sort_by_distance(self@.id@, self@.nodes()),
            r@.len() == self@.nodes().len(),
    {
        proof {
            law_sort_same_nodes(self@.id@, self@.nodes());
        }
        let all = collect_nodes(&self.buckets);
        sort_nodes(&self.id, &all)
    }
}

/// Whether `next_refresh_node` at `now` may return `r` and leave the table `u`.
pub open spec fn refreshed(
    t: Table,
    min_duration: u128,
    now: u128,
    r: Option<(NodeId, SocketAddr, u128)>,
    u: Table,
) -> bool {
    &&& forall|i: int, j: int|
        #[trigger] t.is_oldest(i, j) ==> {
            &&& r == t.refresh_result(i, j, min_duration, now)
            &&& u == (if r is Some {
                t.refresh(i, j, now)
            } else {
                t
            })
        }
    &&& (forall|i: int, j: int| !(#[trigger] t.is_oldest(i, j))) ==> r is None && u == t
}

/// Whether `best` is the first oldest node before position `q` of bucket `a`.
spec fn oldest_before(t: Table, best: Option<(usize, usize)>, a: int, q: int) -> bool {
    match best {
        Some((i, j)) => {
            &&& t.has(i as int, j as int)
            &&& i < a || (i == a && j < q)
            &&& forall|k: int, l: int|
                t.has(k, l) && (k < a || (k == a && l < q)) ==> {
                    let node = #[trigger] t.buckets[k].nodes[l];
                    let first = t.buckets[i as int].nodes[j as int];
                    if k < i || (k == i && l < j) {
                        first.last_seen < node.last_seen
                    } else {
                        first.last_seen <= node.last_seen
                    }
                }
        },
        None => forall|k: int, l: int|
            #[trigger] t.has(k, l) ==> !(k < a || (k == a && l < q)),
    }
}

/// The end of a bucket is the start of the next.
proof fn lemma_oldest_next_bucket(t: Table, best: Option<(usize, usize)>, a: int, q: int)
    requires
        oldest_before(t, best, a, q),
        0 <= a < t.buckets.len(),
        q == t.buckets[a].nodes.len(),
    ensures
        oldest_before(t, best, a + 1, 0),
{
}

/// No two nodes are both the first that was seen longest ago.
pub proof fn lemma_oldest_unique(t: Table, i: int, j: int)
    requires
        t.is_oldest(i, j),
    ensures
        forall|k: int, l: int| #[trigger] t.is_oldest(k, l) ==> k == i && l == j,
{
    assert forall|k: int, l: int| #[trigger] t.is_oldest(k, l) implies k == i && l == j by {
        let x = t.buckets[i].nodes[j];
        let y = t.buckets[k].nodes[l];
        if k != i || l != j {
            assert(t.has(i, j));
            assert(t.has(k, l));
        }
    }
}

/// A well-formed table stays so by an update.
pub proof fn law_update_wf(t: Table, target: NodeId, ip: SocketAddr, now: u128)
    requires
        t.wf(),
    ensures
        t.update(target, ip, now).wf(),
{
    let b = t.index_of(target);
    let nodes = t.buckets[b].nodes;
    let u = t.update(target, ip, now);
    lemma_shared_bits_bound(t.id, target);
    lemma_pair_index(nodes, target, ip, 0);
    if t.update_result(target, ip) is Ok {
        assert forall|x: SocketAddr| #[trigger] u.ips.contains(x) implies u.has_ip(x) by {
            if t.ips.contains(x) {
                assert(t.has_ip(x));
                let (i, j) = choose|i: int, j: int|
                    t.has(i, j) && (#[trigger] t.buckets[i].nodes[j]).ip == x;
                assert(u.has(i, j));
                assert(u.buckets[i].nodes[j].ip == x);
            } else {
                let n = nodes.len() as int;
                assert(u.has(b, n));
                assert(u.buckets[b].nodes[n].ip == x);
            }
        }
        assert forall|i: int, j: int| u.has(i, j) implies u.node_ok(
            i,
            #[trigger] u.buckets[i].nodes[j],
        ) by {
            if t.has(i, j) {
                assert(t.node_ok(i, t.buckets[i].nodes[j]));
            }
        }
    }
}

/// The members of a filtered sequence are members that meet the condition.
proof fn lemma_filter_member(s: Seq<Node>, pred: spec_fn(Node) -> bool, i: int) -> (k: int)
    requires
        0 <= i < s.filter(pred).len(),
    ensures
        0 <= k < s.len(),
        s[k] == s.filter(pred)[i],
        pred(s[k]),
    decreases s.len(),
{
    reveal(Seq::filter);
    let t = s.drop_last();
    if i < t.filter(pred).len() {
        lemma_filter_member(t, pred, i)
    } else {
        s.len() - 1
    }
}

/// A filtered sequence of nodes with different addresses has different addresses.
proof fn lemma_filter_distinct(s: Seq<Node>, pred: spec_fn(Node) -> bool)
    requires
        forall|j: int, l: int|
            0 <= j < s.len() && 0 <= l < s.len() && j != l ==> (#[trigger] s[j]).ip != (
            #[trigger] s[l]).ip,
    ensures
        s.filter(pred).len() <= s.len(),
        forall|j: int, l: int|
            0 <= j < s.filter(pred).len() && 0 <= l < s.filter(pred).len() && j != l ==> (
            #[trigger] s.filter(pred)[j]).ip != (#[trigger] s.filter(pred)[l]).ip,
    decreases s.len(),
{
    reveal(Seq::filter);
    if s.len() > 0 {
        let t = s.drop_last();
        let f = t.filter(pred);
        assert forall|j: int, l: int|
            0 <= j < t.len() && 0 <= l < t.len() && j != l implies (#[trigger] t[j]).ip != (
        #[trigger] t[l]).ip by {
            assert(t[j] == s[j] && t[l] == s[l]);
        }
        lemma_filter_distinct(t, pred);
        if pred(s.last()) {
            let g = s.filter(pred);
            assert forall|j: int, l: int|
                0 <= j < g.len() && 0 <= l < g.len() && j != l implies (#[trigger] g[j]).ip != (
            #[trigger] g[l]).ip by {
                let last = s.len() - 1;
                if j == f.len() {
                    let k = lemma_filter_member(t, pred, l);
                    assert(s[k].ip != s[last].ip);
                } else if l == f.len() {
                    let k = lemma_filter_member(t, pred, j);
                    assert(s[k].ip != s[last].ip);
                } else {
                    assert(g[j] == f[j] && g[l] == f[l]);
                }
            }
        }
    }
}

/// The place in a table from which a node of its split comes.
proof fn lemma_split_origin(t: Table, i: int, j: int) -> (r: (int, int))
    requires
        t.wf(),
        t.split().has(i, j),
    ensures
        t.has(r.0, r.1),
        t.buckets[r.0].nodes[r.1] == t.split().buckets[i].nodes[j],
        i < t.buckets.len() - 1 ==> r == (i, j),
        i >= t.buckets.len() - 1 ==> r.0 == t.buckets.len() - 1,
        t.buckets.len() < MAX_BUCKETS && i == t.buckets.len() - 1 ==> t.stays(
            t.buckets[r.0].nodes[r.1],
        ),
        t.buckets.len() < MAX_BUCKETS && i == t.buckets.len() ==> !t.stays(
            t.buckets[r.0].nodes[r.1],
        ),
{
    let len = t.buckets.len() as int;
    if len == MAX_BUCKETS || i < len - 1 {
        (i, j)
    } else if i == len - 1 {
        (len - 1, lemma_filter_member(t.buckets.last().nodes, |node: Node| t.stays(node), j))
    } else {
        (len - 1, lemma_filter_member(t.buckets.last().nodes, |node: Node| !t.stays(node), j))
    }
}

/// A well-formed table stays so by a split: every node is in the bucket where it belongs
/// among one more.
pub proof fn law_split_wf(t: Table)
    requires
        t.wf(),
    ensures
        t.split().wf(),
{
    let u = t.split();
    let len = t.buckets.len() as int;
    if len < MAX_BUCKETS {
        let nodes = t.buckets.last().nodes;
        let pred = |node: Node| t.stays(node);
        let not_pred = |node: Node| !t.stays(node);
        assert forall|j: int, l: int|
            0 <= j < nodes.len() && 0 <= l < nodes.len() && j != l implies (
        #[trigger] nodes[j]).ip != (#[trigger] nodes[l]).ip by {
            assert(t.has(len - 1, j) && t.has(len - 1, l));
            assert(t.buckets[len - 1].nodes[j].ip != t.buckets[len - 1].nodes[l].ip);
        }
        lemma_filter_distinct(nodes, pred);
        lemma_filter_distinct(nodes, not_pred);
        assert forall|x: SocketAddr| #[trigger] u.ips.contains(x) implies u.has_ip(x) by {
            assert(t.has_ip(x));
            let (i, j) = choose|i: int, j: int|
                t.has(i, j) && (#[trigger] t.buckets[i].nodes[j]).ip == x;
            let node = t.buckets[i].nodes[j];
            law_split_same_nodes(t, node);
            let (k, l) = choose|k: int, l: int|
                u.has(k, l) && #[trigger] u.buckets[k].nodes[l] == node;
            assert(u.buckets[k].nodes[l].ip == x);
        }
        assert forall|i: int| 0 <= i < u.buckets.len() implies (
        #[trigger] u.buckets[i]).nodes.len() <= KBUCKET_SIZE by {
            assert(t.buckets[len - 1].nodes.len() <= KBUCKET_SIZE);
            if i < len - 1 {
                assert(u.buckets[i] == t.buckets[i]);
            }
        }
        assert forall|i: int, j: int| u.has(i, j) implies u.node_ok(
            i,
            #[trigger] u.buckets[i].nodes[j],
        ) by {
            let (k, l) = lemma_split_origin(t, i, j);
            assert(t.node_ok(k, t.buckets[k].nodes[l]));
        }
        assert forall|i: int, j: int, k: int, l: int|
            u.has(i, j) && u.has(k, l) && (i != k || j != l) implies (
        #[trigger] u.buckets[i].nodes[j]).ip != (#[trigger] u.buckets[k].nodes[l]).ip by {
            let (a, b) = lemma_split_origin(t, i, j);
            let (c, d) = lemma_split_origin(t, k, l);
            if i == k && i >= len - 1 {
                if i == len - 1 {
                    assert(u.buckets[i].nodes == nodes.filter(pred));
                } else {
                    assert(u.buckets[i].nodes == nodes.filter(not_pred));
                }
            } else {
                assert(a != c || b != d);
                assert(t.buckets[a].nodes[b].ip != t.buckets[c].nodes[d].ip);
            }
        }
    }
}

/// A well-formed table stays so when a node is removed.
pub proof fn law_remove_wf(t: Table, target: NodeId)
    requires
        t.wf(),
    ensures
        t.remove(target).wf(),
{
    let u = t.remove(target);
    let b = t.index_of(target);
    lemma_shared_bits_bound(t.id, target);
    lemma_node_index(t.buckets[b].nodes, target, 0);
    if let Some(p) = t.find(target) {
        let last = t.buckets[b].nodes.len() - 1;
        assert(t.has(b, p));
        let origin = |i: int, j: int| if i == b && j == p { last } else { j };
        assert forall|x: SocketAddr| #[trigger] u.ips.contains(x) implies u.has_ip(x) by {
            assert(t.has_ip(x));
            let (i, j) = choose|i: int, j: int|
                t.has(i, j) && (#[trigger] t.buckets[i].nodes[j]).ip == x;
            let k = if i == b && j == last { p } else { j };
            assert(u.has(i, k));
            assert(u.buckets[i].nodes[k].ip == x);
        }
        assert forall|i: int, j: int| u.has(i, j) implies u.node_ok(
            i,
            #[trigger] u.buckets[i].nodes[j],
        ) by {
            let k = origin(i, j);
            assert(t.has(i, k));
            assert(u.buckets[i].nodes[j] == t.buckets[i].nodes[k]);
            assert(t.node_ok(i, t.buckets[i].nodes[k]));
            assert(t.buckets[i].nodes[k].ip != t.buckets[b].nodes[p].ip);
        }
        assert forall|i: int, j: int, k: int, l: int|
            u.has(i, j) && u.has(k, l) && (i != k || j != l) implies (
        #[trigger] u.buckets[i].nodes[j]).ip != (#[trigger] u.buckets[k].nodes[l]).ip by {
            let x = origin(i, j);
            let y = origin(k, l);
            assert(t.has(i, x) && t.has(k, y));
            assert(u.buckets[i].nodes[j] == t.buckets[i].nodes[x]);
            assert(u.buckets[k].nodes[l] == t.buckets[k].nodes[y]);
            assert(t.buckets[i].nodes[x].ip != t.buckets[k].nodes[y].ip);
        }
    }
}

/// A well-formed table stays so when a node does not answer.
pub proof fn law_timeout_wf(t: Table, target: NodeId)
    requires
        t.wf(),
    ensures
        t.timeout(target).wf(),
{
    let u = t.timeout(target);
    let b = t.index_of(target);
    lemma_shared_bits_bound(t.id, target);
    lemma_node_index(t.buckets[b].nodes, target, 0);
    if let Some(p) = t.find(target) {
        assert(t.has(b, p));
        let gone = t.buckets[b].nodes[p].status == NodeStatus::Bad;
        let origin = |i: int, j: int| if gone && i == b && j >= p { j + 1 } else { j };
        assert forall|x: SocketAddr| #[trigger] u.ips.contains(x) implies u.has_ip(x) by {
            assert(t.has_ip(x));
            let (i, j) = choose|i: int, j: int|
                t.has(i, j) && (#[trigger] t.buckets[i].nodes[j]).ip == x;
            let k = if gone && i == b && j > p { j - 1 } else { j };
            assert(u.has(i, k));
            assert(u.buckets[i].nodes[k].ip == x);
        }
        assert forall|i: int, j: int| u.has(i, j) implies u.node_ok(
            i,
            #[trigger] u.buckets[i].nodes[j],
        ) by {
            let k = origin(i, j);
            assert(t.has(i, k));
            assert(t.node_ok(i, t.buckets[i].nodes[k]));
            if gone {
                assert(t.buckets[i].nodes[k].ip != t.buckets[b].nodes[p].ip);
            }
        }
        assert forall|i: int, j: int, k: int, l: int|
            u.has(i, j) && u.has(k, l) && (i != k || j != l) implies (
        #[trigger] u.buckets[i].nodes[j]).ip != (#[trigger] u.buckets[k].nodes[l]).ip by {
            let x = origin(i, j);
            let y = origin(k, l);
            assert(t.has(i, x) && t.has(k, y));
            assert(u.buckets[i].nodes[j].ip == t.buckets[i].nodes[x].ip);
            assert(u.buckets[k].nodes[l].ip == t.buckets[k].nodes[y].ip);
            assert(t.buckets[i].nodes[x].ip != t.buckets[k].nodes[y].ip);
        }
    }
}

/// A well-formed table stays so when a node is refreshed.
pub proof fn law_refresh_wf(t: Table, i: int, j: int, now: u128)
    requires
        t.wf(),
        t.has(i, j),
    ensures
        t.refresh(i, j, now).wf(),
{
    let u = t.refresh(i, j, now);
    assert forall|x: SocketAddr| #[trigger] u.ips.contains(x) implies u.has_ip(x) by {
        assert(t.has_ip(x));
        let (a, b) = choose|a: int, b: int|
            t.has(a, b) && (#[trigger] t.buckets[a].nodes[b]).ip == x;
        assert(u.has(a, b));
        assert(u.buckets[a].nodes[b].ip == x);
    }
    assert forall|a: int, b: int| u.has(a, b) implies u.node_ok(
        a,
        #[trigger] u.buckets[a].nodes[b],
    ) by {
        assert(t.has(a, b));
        assert(t.node_ok(a, t.buckets[a].nodes[b]));
    }
    assert forall|a: int, b: int, k: int, l: int|
        u.has(a, b) && u.has(k, l) && (a != k || b != l) implies (
    #[trigger] u.buckets[a].nodes[b]).ip != (#[trigger] u.buckets[k].nodes[l]).ip by {
        assert(t.has(a, b) && t.has(k, l));
        assert(t.buckets[a].nodes[b].ip != t.buckets[k].nodes[l].ip);
    }
}

impl Table {
    /// Whether a node is in the table.
    pub open spec fn holds(self, node: Node) -> bool {
        exists|i: int, j: int| self.has(i, j) && #[trigger] self.buckets[i].nodes[j] == node
    }
}

/// A node that was added or updated is in the table, in the bucket where it belongs.
pub proof fn law_update_holds(t: Table, target: NodeId, ip: SocketAddr, now: u128)
    requires
        t.wf(),
        t.update_result(target, ip) is Ok,
    ensures
        t.update(target, ip, now).buckets[t.index_of(target)].nodes.contains(
            fresh_node(target, ip, now),
        ),
        t.update(target, ip, now).find(target) is Some,
        t.update(target, ip, now).ips.contains(ip),
{
    let b = t.index_of(target);
    let u = t.update(target, ip, now);
    lemma_shared_bits_bound(t.id, target);
    let nodes = t.buckets[b].nodes;
    lemma_pair_index(nodes, target, ip, 0);
    let p = if t.ips.contains(ip) {
        t.find_at(target, ip)->Some_0
    } else {
        nodes.len() as int
    };
    assert(u.buckets[b].nodes[p] == fresh_node(target, ip, now));
    lemma_node_index(u.buckets[b].nodes, target, 0);
    law_update_wf(t, target, ip, now);
}

/// A split neither loses a node nor adds one.
pub proof fn law_split_same_nodes(t: Table, node: Node)
    requires
        t.wf(),
    ensures
        t.split().holds(node) == t.holds(node),
{
    let u = t.split();
    let len = t.buckets.len() as int;
    if u.holds(node) {
        let (i, j) = choose|i: int, j: int|
            u.has(i, j) && #[trigger] u.buckets[i].nodes[j] == node;
        let (k, l) = lemma_split_origin(t, i, j);
        assert(t.buckets[k].nodes[l] == node);
    }
    if t.holds(node) {
        let (i, j) = choose|i: int, j: int|
            t.has(i, j) && #[trigger] t.buckets[i].nodes[j] == node;
        if i < len - 1 || len == MAX_BUCKETS {
            assert(u.has(i, j));
            assert(u.buckets[i].nodes[j] == node);
        } else if t.stays(node) {
            let l = lemma_filter_has(t.buckets.last().nodes, |node: Node| t.stays(node), j);
            assert(u.has(len - 1, l));
            assert(u.buckets[len - 1].nodes[l] == node);
        } else {
            let l = lemma_filter_has(t.buckets.last().nodes, |node: Node| !t.stays(node), j);
            assert(u.has(len, l));
            assert(u.buckets[len].nodes[l] == node);
        }
    }
}

/// A member that meets the condition is in the filtered sequence.
proof fn lemma_filter_has(s: Seq<Node>, pred: spec_fn(Node) -> bool, i: int) -> (k: int)
    requires
        0 <= i < s.len(),
        pred(s[i]),
    ensures
        0 <= k < s.filter(pred).len(),
        s.filter(pred)[k] == s[i],
    decreases s.len(),
{
    reveal(Seq::filter);
    let t = s.drop_last();
    if i < t.len() {
        lemma_filter_has(t, pred, i)
    } else {
        t.filter(pred).len() as int
    }
}

/// A removal takes out the first node of that id and no other.
pub proof fn law_remove_holds(t: Table, target: NodeId, node: Node)
    requires
        t.wf(),
        t.find(target) is Some,
    ensures
        ({
            let gone = t.buckets[t.index_of(target)].nodes[t.find(target)->Some_0];
            &&& gone.id == target
            &&& t.remove(target).holds(node) == (t.holds(node) && node.ip != gone.ip)
            &&& !t.remove(target).ips.contains(gone.ip)
        }),
{
    let u = t.remove(target);
    let b = t.index_of(target);
    let p = t.find(target)->Some_0;
    lemma_shared_bits_bound(t.id, target);
    lemma_node_index(t.buckets[b].nodes, target, 0);
    assert(t.has(b, p));
    let last = t.buckets[b].nodes.len() - 1;
    if u.holds(node) {
        let (i, j) = choose|i: int, j: int|
            u.has(i, j) && #[trigger] u.buckets[i].nodes[j] == node;
        let k = if i == b && j == p { last } else { j };
        assert(t.has(i, k));
        assert(t.buckets[i].nodes[k] == node);
        assert(t.buckets[i].nodes[k].ip != t.buckets[b].nodes[p].ip);
    }
    if t.holds(node) && node.ip != t.buckets[b].nodes[p].ip {
        let (i, j) = choose|i: int, j: int|
            t.has(i, j) && #[trigger] t.buckets[i].nodes[j] == node;
        let k = if i == b && j == last { p } else { j };
        assert(u.has(i, k));
        assert(u.buckets[i].nodes[k] == node);
    }
}

/// There are as many addresses that are taken as nodes.
pub proof fn law_nodes_len(t: Table)
    requires
        t.wf(),
    ensures
        t.ips.len() == t.nodes().len(),
{
    let n = t.buckets.len() as int;
    let all = all_nodes(t.buckets, n);
    let ips = Seq::new(all.len(), |x: int| all[x].1);
    assert forall|x: int, y: int| 0 <= x < ips.len() && 0 <= y < ips.len() && x != y implies ips[x]
        != ips[y] by {
        let (i, j) = lemma_all_nodes_place(t.buckets, n, x);
        let (k, l) = lemma_all_nodes_place(t.buckets, n, y);
        if i == k && j == l {
            assert(false);
        }
        assert(t.buckets[i].nodes[j].ip != t.buckets[k].nodes[l].ip);
    }
    assert forall|ip: SocketAddr| ips.to_set().contains(ip) == t.ips.contains(ip) by {
        if ips.contains(ip) {
            let x = choose|x: int| 0 <= x < ips.len() && ips[x] == ip;
            let (i, j) = lemma_all_nodes_place(t.buckets, n, x);
            assert(t.node_ok(i, t.buckets[i].nodes[j]));
        }
        if t.ips.contains(ip) {
            let (i, j) = choose|i: int, j: int|
                t.has(i, j) && (#[trigger] t.buckets[i].nodes[j]).ip == ip;
            lemma_all_nodes_has(t.buckets, n, i, j);
            assert(ips[all_nodes(t.buckets, i).len() + j] == ip);
        }
    }
    assert(ips.to_set() =~= t.ips);
    ips.unique_seq_to_set();
}

/// Whether a node of the table has that id and address.
pub open spec fn is_node(t: Table, pair: (NodeId, SocketAddr)) -> bool {
    in_buckets(t.buckets, pair)
}

/// A node that is in the table is found there.
proof fn lemma_node_found(t: Table, target: NodeId, ip: SocketAddr)
    requires
        t.wf(),
    ensures
        is_node(t, (target, ip)) ==> t.ips.contains(ip) && !is_zero_id(target),
        0 <= t.index_of(target) < t.buckets.len(),
        match t.find_at(target, ip) {
            Some(p) => t.has(t.index_of(target), p) && t.buckets[t.index_of(target)].nodes[p].id
                == target && t.buckets[t.index_of(target)].nodes[p].ip == ip,
            None => !is_node(t, (target, ip)),
        },
{
    let b = t.index_of(target);
    lemma_shared_bits_bound(t.id, target);
    lemma_pair_index(t.buckets[b].nodes, target, ip, 0);
    if is_node(t, (target, ip)) {
        let (i, j) = choose|i: int, j: int|
            t.has(i, j) && (#[trigger] t.buckets[i].nodes[j]).id == target
                && t.buckets[i].nodes[j].ip == ip;
        assert(t.node_ok(i, t.buckets[i].nodes[j]));
    }
}

/// A node that is in the table is updated, and then the table holds the same nodes.
/// One that is not and is put there is the only one that the table gains.
pub proof fn law_update_nodes(
    t: Table,
    target: NodeId,
    ip: SocketAddr,
    now: u128,
    pair: (NodeId, SocketAddr),
)
    requires
        t.wf(),
    ensures
        is_node(t, (target, ip)) ==> t.update_result(target, ip) is Ok && t.update(
            target,
            ip,
            now,
        ).ips == t.ips,
        t.update_result(target, ip) is Err ==> t.update(target, ip, now) == t,
        t.update_result(target, ip) is Ok ==> is_node(t.update(target, ip, now), pair) == (is_node(
            t,
            pair,
        ) || pair == (target, ip)),
{
    let u = t.update(target, ip, now);
    let b = t.index_of(target);
    let nodes = t.buckets[b].nodes;
    lemma_node_found(t, target, ip);
    if t.update_result(target, ip) is Ok {
        let p = if t.ips.contains(ip) {
            t.find_at(target, ip)->Some_0
        } else {
            nodes.len() as int
        };
        assert(u.has(b, p));
        assert(u.buckets[b].nodes[p] == fresh_node(target, ip, now));
        if is_node(u, pair) && pair != (target, ip) {
            let (i, j) = choose|i: int, j: int|
                u.has(i, j) && (#[trigger] u.buckets[i].nodes[j]).id == pair.0
                    && u.buckets[i].nodes[j].ip == pair.1;
            assert(t.has(i, j));
            assert(t.buckets[i].nodes[j].id == pair.0);
        }
        if is_node(t, pair) {
            let (i, j) = choose|i: int, j: int|
                t.has(i, j) && (#[trigger] t.buckets[i].nodes[j]).id == pair.0
                    && t.buckets[i].nodes[j].ip == pair.1;
            assert(u.has(i, j));
            assert(u.buckets[i].nodes[j].id == pair.0);
        }
    }
}

/// Splitting for a node keeps the table well formed and its nodes the same, and does not
/// stop where another split would make room.
proof fn lemma_split_for(t: Table, target: NodeId, ip: SocketAddr, pair: (NodeId, SocketAddr))
    requires
        t.wf(),
    ensures
        t.split_for(target, ip).wf(),
        t.split_for(target, ip).ips == t.ips,
        t.split_for(target, ip).update_result(target, ip) != Err::<(), UpdateNodeError>(
            UpdateNodeError::NeedSplit,
        ),
        is_node(t.split_for(target, ip), pair) == is_node(t, pair),
    decreases MAX_BUCKETS - t.buckets.len(),
{
    if t.update_result(target, ip) == Err::<(), UpdateNodeError>(UpdateNodeError::NeedSplit)
        && t.buckets.len() < MAX_BUCKETS {
        let u = t.split();
        law_split_wf(t);
        if is_node(t, pair) {
            let (i, j) = choose|i: int, j: int|
                t.has(i, j) && (#[trigger] t.buckets[i].nodes[j]).id == pair.0
                    && t.buckets[i].nodes[j].ip == pair.1;
            let node = t.buckets[i].nodes[j];
            law_split_same_nodes(t, node);
            let (k, l) = choose|k: int, l: int|
                u.has(k, l) && #[trigger] u.buckets[k].nodes[l] == node;
            assert(u.buckets[k].nodes[l].id == pair.0);
        }
        if is_node(u, pair) {
            let (i, j) = choose|i: int, j: int|
                u.has(i, j) && (#[trigger] u.buckets[i].nodes[j]).id == pair.0
                    && u.buckets[i].nodes[j].ip == pair.1;
            let (k, l) = lemma_split_origin(t, i, j);
            assert(t.buckets[k].nodes[l].id == pair.0);
        }
        lemma_split_for(u, target, ip, pair);
    }
}

/// A node that is added is in the table, with all that were there before and no other.
/// Where it is not added, the table holds the nodes that it held before. There is no
/// other failure, and to add a node that is there succeeds and adds no second one.
pub proof fn law_add_node(
    t: Table,
    target: NodeId,
    ip: SocketAddr,
    now: u128,
    pair: (NodeId, SocketAddr),
)
    requires
        t.wf(),
    ensures
        ({
            let s = t.split_for(target, ip);
            let u = s.update(target, ip, now);
            &&& match s.update_result(target, ip) {
                Ok(_) => is_node(u, pair) == (is_node(t, pair) || pair == (target, ip)),
                Err(e) => e == UpdateNodeError::Failed && is_node(u, pair) == is_node(t, pair)
                    && u.nodes().len() == t.nodes().len(),
            }
            &&& is_node(t, (target, ip)) ==> s.update_result(target, ip) is Ok && u.nodes().len()
                == t.nodes().len()
        }),
{
    let s = t.split_for(target, ip);
    lemma_split_for(t, target, ip, pair);
    lemma_split_for(t, target, ip, (target, ip));
    law_update_nodes(s, target, ip, now, pair);
    law_update_wf(s, target, ip, now);
    law_nodes_len(t);
    law_nodes_len(s.update(target, ip, now));
}

/// The nodes of a target's bucket are nearer to the target than all other nodes.
pub proof fn law_own_bucket(t: Table, target: NodeId, j: int, k: int, l: int)
    requires
        t.wf(),
        t.has(t.index_of(target), j),
        t.has(k, l),
        k != t.index_of(target),
    ensures
        distance_less(
            target@,
            t.buckets[t.index_of(target)].nodes[j].id@,
            t.buckets[k].nodes[l].id@,
        ),
{
    let near = t.buckets[t.index_of(target)].nodes[j];
    let far = t.buckets[k].nodes[l];
    assert(t.node_ok(t.index_of(target), near));
    assert(t.node_ok(k, far));
    law_nearer_in_bucket(t.id, t.buckets.len() - 1, target, near.id, far.id);
}

/// The positions of buckets that hold few nodes are positions of buckets.
pub proof fn lemma_small_buckets(t: Table, len: usize, n: int)
    requires
        0 <= n <= t.buckets.len() <= MAX_BUCKETS,
    ensures
        forall|k: int|
            0 <= k < t.small_buckets(len, n).len() ==> (#[trigger] t.small_buckets(len, n)[k]) < n,
    decreases n,
{
    if n > 0 {
        lemma_small_buckets(t, len, n - 1);
        let before = t.small_buckets(len, n - 1);
        let s = t.small_buckets(len, n);
        assert forall|k: int| 0 <= k < s.len() implies (#[trigger] s[k]) < n by {
            if k < before.len() {
                assert(s[k] == before[k]);
            }
        }
    }
}

/// What a search gives are nodes of the table: all of them where there are at most eight,
/// else eight, from the nearest to the target to the farthest, and no node of the table that
/// is not among them is nearer to the target than one that is.
pub proof fn law_closest(t: Table, target: NodeId)
    ensures
        t.closest(target).len() == (if t.nodes().len() <= 8 {
            t.nodes().len()
        } else {
            8
        }),
        forall|x: int, y: int|
            0 <= x < y < t.closest(target).len() ==> !distance_less(
                target@,
                (#[trigger] t.closest(target)[y]).0@,
                (#[trigger] t.closest(target)[x]).0@,
            ),
        forall|x: int|
            0 <= x < t.closest(target).len() ==> is_node(t, #[trigger] t.closest(target)[x]),
        forall|p: (NodeId, SocketAddr), x: int|
            is_node(t, p) && !t.closest(target).contains(p) && 0 <= x < t.closest(target).len()
                ==> !(#[trigger] distance_less(target@, p.0@, t.closest(target)[x].0@)),
{
    law_nearest(t.buckets, target);
}

/// All nodes are the nodes of the table, each as often as the table holds it.
pub proof fn law_all_nodes(t: Table, p: (NodeId, SocketAddr))
    requires
        t.wf(),
    ensures
        t.nodes().contains(p) <==> is_node(t, p),
        forall|x: int, y: int|
            0 <= x < y < t.nodes().len() ==> (#[trigger] t.nodes()[x]).1 != (
            #[trigger] t.nodes()[y]).1,
{
    let n = t.buckets.len() as int;
    let all = t.nodes();
    if all.contains(p) {
        let x = choose|x: int| 0 <= x < all.len() && all[x] == p;
        let (i, j) = lemma_all_nodes_place(t.buckets, n, x);
        assert(t.buckets[i].nodes[j].id == p.0);
    }
    if is_node(t, p) {
        let (i, j) = choose|i: int, j: int|
            t.has(i, j) && (#[trigger] t.buckets[i].nodes[j]).id == p.0 && t.buckets[i].nodes[j].ip
                == p.1;
        lemma_all_nodes_has(t.buckets, n, i, j);
        assert(all[all_nodes(t.buckets, i).len() + j] == p);
    }
    assert forall|x: int, y: int| 0 <= x < y < all.len() implies (#[trigger] all[x]).1 != (
    #[trigger] all[y]).1 by {
        let (i, j) = lemma_all_nodes_place(t.buckets, n, x);
        let (k, l) = lemma_all_nodes_place(t.buckets, n, y);
        if i == k && j == l {
            assert(false);
        }
        assert(t.buckets[i].nodes[j].ip != t.buckets[k].nodes[l].ip);
    }
}

/// Which nodes are taken in: those that are there, and those with an address that no node
/// has and that is no router's, in a bucket with fewer than eight nodes, but not one with
/// the own identifier or with one of zeros. A split is asked for where only the room is
/// missing and the bucket is the last of fewer than 160.
pub proof fn law_update_result(t: Table, id: NodeId, ip: SocketAddr)
    requires
        t.wf(),
    ensures
        ({
            let zero = forall|i: int| 0 <= i < 20 ==> id@[i] == 0u8;
            let full = t.buckets[t.index_of(id)].nodes.len() == 8;
            let r = t.update_result(id, ip);
            &&& r is Ok <==> !zero && (is_node(t, (id, ip)) || (!t.has_ip(ip) && !full && id
                != t.id && !t.routers.contains(ip)))
            &&& r == Err::<(), UpdateNodeError>(UpdateNodeError::NeedSplit) <==> !zero
                && !t.has_ip(ip) && full && t.index_of(id) == t.buckets.len() - 1
                && t.buckets.len() < 160
        }),
{
    lemma_node_found(t, id, ip);
    if is_zero_id(id) {
        assert forall|i: int| 0 <= i < 20 implies id@[i] == 0u8 by {}
    } else if forall|i: int| 0 <= i < 20 ==> id@[i] == 0u8 {
        assert(id@ =~= Seq::new(20, |i: int| 0u8));
    }
    if is_node(t, (id, ip)) {
        let (i, j) = choose|i: int, j: int|
            t.has(i, j) && (#[trigger] t.buckets[i].nodes[j]).id == id && t.buckets[i].nodes[j].ip
                == ip;
        assert(t.buckets[i].nodes[j].ip == ip);
    }
    if t.has_ip(ip) {
        let (i, j) = choose|i: int, j: int|
            t.has(i, j) && (#[trigger] t.buckets[i].nodes[j]).ip == ip;
        assert(t.node_ok(i, t.buckets[i].nodes[j]));
    }
    if let Some(p) = t.find_at(id, ip) {
        assert(t.buckets[t.index_of(id)].nodes[p].id == id);
    }
    assert(t.buckets[t.index_of(id)].nodes.len() <= KBUCKET_SIZE);
}

/// What the table holds after an update: where it is taken in, the node is there, good and
/// seen just now, and with it the nodes at the other addresses, as they were; where it is
/// not, the nodes that were there. Nothing else changes.
pub proof fn law_update(t: Table, id: NodeId, ip: SocketAddr, now: u128, node: Node)
    requires
        t.wf(),
    ensures
        ({
            let u = t.update(id, ip, now);
            let seen = Node { id, ip, last_seen: now, status: NodeStatus::Good };
            &&& u.wf()
            &&& u.id == t.id
            &&& u.routers == t.routers
            &&& u.buckets.len() == t.buckets.len()
            &&& u.holds(node) <==> (if t.update_result(id, ip) is Ok {
                node == seen || (t.holds(node) && node.ip != ip)
            } else {
                t.holds(node)
            })
        }),
{
    let u = t.update(id, ip, now);
    let b = t.index_of(id);
    let nodes = t.buckets[b].nodes;
    let seen = Node { id, ip, last_seen: now, status: NodeStatus::Good };
    law_update_wf(t, id, ip, now);
    lemma_node_found(t, id, ip);
    if t.update_result(id, ip) is Ok {
        let p = if t.ips.contains(ip) {
            t.find_at(id, ip)->Some_0
        } else {
            nodes.len() as int
        };
        assert(u.has(b, p));
        assert(u.buckets[b].nodes[p] == seen);
        assert(u.holds(seen));
        if u.holds(node) && node != seen {
            let (i, j) = choose|i: int, j: int|
                u.has(i, j) && #[trigger] u.buckets[i].nodes[j] == node;
            assert(t.has(i, j));
            assert(t.buckets[i].nodes[j] == node);
            assert(u.buckets[i].nodes[j].ip != u.buckets[b].nodes[p].ip);
        }
        if t.holds(node) && node.ip != ip {
            let (i, j) = choose|i: int, j: int|
                t.has(i, j) && #[trigger] t.buckets[i].nodes[j] == node;
            assert(u.has(i, j));
            if i == b && j == p {
                assert(nodes[p].ip == ip);
            }
            assert(u.buckets[i].nodes[j] == node);
        }
    }
}

/// What is thought of a node that did not answer: a good one is questionable, a
/// questionable one bad, and a bad one is out of the table.
pub open spec fn worse(node: Node) -> Option<Node> {
    match node.status {
        NodeStatus::Good => Some(Node { status: NodeStatus::Questionable, ..node }),
        NodeStatus::Questionable => Some(Node { status: NodeStatus::Bad, ..node }),
        NodeStatus::Bad => None,
    }
}

/// Where a node does not answer, no node is new in the table: one with its identifier is
/// thought worse of by a step, or is gone, and all others are as they were. Where there is
/// none with that identifier, nothing changes.
pub proof fn law_timeout(t: Table, target: NodeId) -> (quiet: Option<Node>)
    requires
        t.wf(),
    ensures
        t.timeout(target).wf(),
        t.timeout(target).id == t.id,
        t.timeout(target).routers == t.routers,
        match quiet {
            Some(q) => {
                &&& q.id == target
                &&& t.holds(q)
                &&& forall|node: Node| #[trigger]
                    t.timeout(target).holds(node) <==> (worse(q) == Some(node) || (t.holds(node)
                        && node.ip != q.ip))
            },
            None => {
                &&& t.timeout(target) == t
                &&& forall|node: Node| #[trigger] t.holds(node) ==> node.id != target
            },
        },
{
    let u = t.timeout(target);
    let b = t.index_of(target);
    law_timeout_wf(t, target);
    lemma_shared_bits_bound(t.id, target);
    lemma_node_index(t.buckets[b].nodes, target, 0);
    match t.find(target) {
        Some(p) => {
            let q = t.buckets[b].nodes[p];
            assert(t.has(b, p));
            assert(t.buckets[b].nodes[p] == q);
            let gone = q.status == NodeStatus::Bad;
            assert forall|node: Node| #[trigger]
                u.holds(node) <==> (worse(q) == Some(node) || (t.holds(node) && node.ip
                    != q.ip)) by {
                if u.holds(node) {
                    let (i, j) = choose|i: int, j: int|
                        u.has(i, j) && #[trigger] u.buckets[i].nodes[j] == node;
                    let k = if gone && i == b && j >= p { j + 1 } else { j };
                    assert(t.has(i, k));
                    if i == b && k == p {
                    } else {
                        assert(t.buckets[i].nodes[k] == node);
                        assert(t.buckets[i].nodes[k].ip != t.buckets[b].nodes[p].ip);
                    }
                }
                if worse(q) == Some(node) {
                    assert(u.has(b, p));
                    assert(u.buckets[b].nodes[p] == node);
                }
                if t.holds(node) && node.ip != q.ip {
                    let (i, j) = choose|i: int, j: int|
                        t.has(i, j) && #[trigger] t.buckets[i].nodes[j] == node;
                    let k = if gone && i == b && j > p { j - 1 } else { j };
                    assert(u.has(i, k));
                    assert(u.buckets[i].nodes[k] == node);
                }
            }
            Some(q)
        },
        None => {
            assert forall|node: Node| #[trigger] t.holds(node) implies node.id != target by {
                let (i, j) = choose|i: int, j: int|
                    t.has(i, j) && #[trigger] t.buckets[i].nodes[j] == node;
                assert(t.node_ok(i, t.buckets[i].nodes[j]));
            }
            None
        },
    }
}

/// A node that is refreshed was seen at least as long ago as is asked for, and no node was
/// seen longer ago; it then counts as seen just now, and all others are as they were.
/// Where none is refreshed, nothing changes, and one that was seen longest ago, if there is
/// any, was not seen as long ago as is asked for.
pub proof fn law_refreshed(
    t: Table,
    min_duration: u128,
    now: u128,
    r: Option<(NodeId, SocketAddr, u128)>,
    u: Table,
) -> (oldest: Option<Node>)
    requires
        t.wf(),
        refreshed(t, min_duration, now, r, u),
    ensures
        match oldest {
            Some(q) => {
                &&& t.holds(q)
                &&& forall|node: Node| #[trigger] t.holds(node) ==> q.last_seen <= node.last_seen
                &&& match r {
                    Some((id, ip, age)) => {
                        &&& q.id == id
                        &&& q.ip == ip
                        &&& q.last_seen + age == now
                        &&& age >= min_duration
                        &&& forall|node: Node| #[trigger]
                            u.holds(node) <==> (node == (Node { last_seen: now, ..q }) || (t.holds(
                                node,
                            ) && node.ip != ip))
                    },
                    None => u == t && (now < q.last_seen || now - q.last_seen < min_duration),
                }
            },
            None => r is None && u == t && forall|node: Node| !#[trigger] t.holds(node),
        },
{
    if t.nodes().len() == 0 {
        assert forall|node: Node| !#[trigger] t.holds(node) by {
            if t.holds(node) {
                let (i, j) = choose|i: int, j: int|
                    t.has(i, j) && #[trigger] t.buckets[i].nodes[j] == node;
                lemma_all_nodes_has(t.buckets, t.buckets.len() as int, i, j);
            }
        }
        assert forall|i: int, j: int| !(#[trigger] t.is_oldest(i, j)) by {
            if t.is_oldest(i, j) {
                assert(t.holds(t.buckets[i].nodes[j]));
            }
        }
        None
    } else {
        let (i, j) = lemma_some_oldest(t, t.buckets.len() as int, 0);
        let q = t.buckets[i].nodes[j];
        assert(t.is_oldest(i, j));
        assert forall|node: Node| #[trigger] t.holds(node) implies q.last_seen
            <= node.last_seen by {
            let (k, l) = choose|k: int, l: int|
                t.has(k, l) && #[trigger] t.buckets[k].nodes[l] == node;
        }
        if let Some((id, ip, age)) = r {
            assert forall|node: Node| #[trigger]
                u.holds(node) <==> (node == (Node { last_seen: now, ..q }) || (t.holds(node)
                    && node.ip != ip)) by {
                if u.holds(node) {
                    let (k, l) = choose|k: int, l: int|
                        u.has(k, l) && #[trigger] u.buckets[k].nodes[l] == node;
                    assert(t.has(k, l));
                    if k != i || l != j {
                        assert(t.buckets[k].nodes[l] == node);
                        assert(t.buckets[k].nodes[l].ip != t.buckets[i].nodes[j].ip);
                    }
                }
                if node == (Node { last_seen: now, ..q }) {
                    assert(u.has(i, j));
                    assert(u.buckets[i].nodes[j] == node);
                }
                if t.holds(node) && node.ip != ip {
                    let (k, l) = choose|k: int, l: int|
                        t.has(k, l) && #[trigger] t.buckets[k].nodes[l] == node;
                    assert(u.has(k, l));
                    assert(u.buckets[k].nodes[l] == node);
                }
            }
        }
        Some(q)
    }
}

/// Whether the node at position `j` of bucket `i` is the first that was seen longest ago, of
/// those before position `q` of bucket `a`.
spec fn oldest_of(t: Table, i: int, j: int, a: int, q: int) -> bool {
    &&& t.has(i, j)
    &&& i < a || (i == a && j < q)
    &&& forall|k: int, l: int|
        t.has(k, l) && (k < a || (k == a && l < q)) ==> {
            let node = #[trigger] t.buckets[k].nodes[l];
            if k < i || (k == i && l < j) {
                t.buckets[i].nodes[j].last_seen < node.last_seen
            } else {
                t.buckets[i].nodes[j].last_seen <= node.last_seen
            }
        }
}

/// Where there is a node, there is a first that was seen longest ago.
proof fn lemma_some_oldest(t: Table, a: int, q: int) -> (r: (int, int))
    requires
        0 <= a <= t.buckets.len(),
        0 <= q,
        a < t.buckets.len() ==> q <= t.buckets[a].nodes.len(),
        a == t.buckets.len() ==> q == 0,
        all_nodes(t.buckets, a).len() + q > 0,
    ensures
        oldest_of(t, r.0, r.1, a, q),
        a == t.buckets.len() ==> t.is_oldest(r.0, r.1),
    decreases a, q,
{
    if q == 0 {
        let n = t.buckets[a - 1].nodes.len() as int;
        let r = lemma_some_oldest(t, a - 1, n);
        r
    } else if all_nodes(t.buckets, a).len() + q == 1 {
        assert forall|k: int, l: int| t.has(k, l) && (k < a || (k == a && l < q)) implies k == a
            && l == 0 by {
            if k < a {
                lemma_all_nodes_has(t.buckets, a, k, l);
            }
        }
        (a, 0int)
    } else {
        let (i, j) = lemma_some_oldest(t, a, q - 1);
        if t.buckets[a].nodes[q - 1].last_seen < t.buckets[i].nodes[j].last_seen {
            (a, q - 1)
        } else {
            (i, j)
        }
    }
}

/// A split makes one bucket more, unless there are 160.
pub proof fn law_split_len(t: Table)
    requires
        1 <= t.buckets.len() <= 160,
    ensures
        t.split().buckets.len() == (if t.buckets.len() < 160 {
            t.buckets.len() + 1
        } else {
            160
        }),
        t.split().id == t.id,
        t.split().routers == t.routers,
        t.split().ips == t.ips,
{
}

/// The small buckets are those that hold fewer nodes than is asked for, each once and in
/// their order.
pub proof fn law_small_buckets(t: Table, len: usize, n: int, i: usize)
    requires
        0 <= n <= t.buckets.len() <= MAX_BUCKETS,
    ensures
        t.small_buckets(len, n).contains(i) <==> i < n && t.buckets[i as int].nodes.len() < len,
        forall|x: int, y: int|
            0 <= x < y < t.small_buckets(len, n).len() ==> (#[trigger] t.small_buckets(len, n)[x])
                < (#[trigger] t.small_buckets(len, n)[y]),
    decreases n,
{
    if n > 0 {
        law_small_buckets(t, len, n - 1, i);
        lemma_small_buckets(t, len, n - 1);
        let before = t.small_buckets(len, n - 1);
        let s = t.small_buckets(len, n);
        if t.buckets[n - 1].nodes.len() < len {
            assert(s == before.push((n - 1) as usize));
            assert(s[before.len() as int] == n - 1);
            if before.contains(i) {
                let x = choose|x: int| 0 <= x < before.len() && before[x] == i;
                assert(s[x] == i);
            }
            if s.contains(i) && i != n - 1 {
                let x = choose|x: int| 0 <= x < s.len() && s[x] == i;
                assert(before[x] == i);
            }
        }
    }
}

/// Where an identifier belongs: in the bucket for as many leading bits as it shares with the
/// own one, or in the last where there are not so many buckets.
pub proof fn law_index_of(t: Table, target: NodeId, n: int)
    requires
        1 <= t.buckets.len() <= 160,
        0 <= n < t.buckets.len() - 1,
        forall|i: int| 0 <= i < n ==> #[trigger] bit_at(t.id@, i) == bit_at(target@, i),
        bit_at(t.id@, n) != bit_at(target@, n),
    ensures
        t.index_of(target) == n,
{
    law_shared_prefix(t.id, target, n);
}

/// Splitting for a node keeps what the table holds of the nodes.
proof fn lemma_split_for_holds(t: Table, target: NodeId, ip: SocketAddr, node: Node)
    requires
        t.wf(),
    ensures
        t.split_for(target, ip).holds(node) == t.holds(node),
        t.split_for(target, ip).id == t.id,
        t.split_for(target, ip).routers == t.routers,
    decreases MAX_BUCKETS - t.buckets.len(),
{
    if t.update_result(target, ip) == Err::<(), UpdateNodeError>(UpdateNodeError::NeedSplit)
        && t.buckets.len() < MAX_BUCKETS {
        law_split_wf(t);
        law_split_same_nodes(t, node);
        lemma_split_for_holds(t.split(), target, ip, node);
    }
}

/// What the table holds after a node was put in, with as many splits as that takes: the
/// node, good and seen just now, and with it the nodes at the other addresses, as they were.
/// It is refused only where its identifier is the own one or one of zeros, its address is
/// that of another node or of a router, or its bucket is full and cannot be split; then
/// the nodes are as they were.
pub proof fn law_add(t: Table, id: NodeId, ip: SocketAddr, now: u128, node: Node)
    requires
        t.wf(),
    ensures
        ({
            let s = t.split_for(id, ip);
            let u = s.update(id, ip, now);
            let seen = Node { id, ip, last_seen: now, status: NodeStatus::Good };
            let zero = forall|i: int| 0 <= i < 20 ==> id@[i] == 0u8;
            let full = s.buckets[s.index_of(id)].nodes.len() == 8 && (s.index_of(id)
                != s.buckets.len() - 1 || s.buckets.len() == 160);
            &&& u.wf()
            &&& s.update_result(id, ip) is Ok <==> !zero && (is_node(t, (id, ip)) || (!t.has_ip(ip)
                && !full && id != t.id && !t.routers.contains(ip)))
            &&& u.holds(node) <==> (if s.update_result(id, ip) is Ok {
                node == seen || (t.holds(node) && node.ip != ip)
            } else {
                t.holds(node)
            })
        }),
{
    let s = t.split_for(id, ip);
    lemma_split_for(t, id, ip, (id, ip));
    lemma_split_for_holds(t, id, ip, node);
    law_update_result(s, id, ip);
    law_update(s, id, ip, now, node);
    assert(t.has_ip(ip) == s.has_ip(ip)) by {
        if t.has_ip(ip) {
            let (i, j) = choose|i: int, j: int|
                t.has(i, j) && (#[trigger] t.buckets[i].nodes[j]).ip == ip;
            assert(t.node_ok(i, t.buckets[i].nodes[j]));
            assert(s.ips.contains(ip));
        }
        if s.has_ip(ip) {
            let (i, j) = choose|i: int, j: int|
                s.has(i, j) && (#[trigger] s.buckets[i].nodes[j]).ip == ip;
            assert(s.node_ok(i, s.buckets[i].nodes[j]));
            assert(t.ips.contains(ip));
        }
    }
}

} // verus!
