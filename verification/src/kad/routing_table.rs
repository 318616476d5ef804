//! A routing table whose first bucket is the one around the own identifier.
//!
//! Only the first bucket can be split. The others are for the nodes that are farther, the
//! last for the farthest.

use super::addr::SocketAddr;
use super::addr_set::AddrSet;
use super::bucket::{
    all_nodes, bucket_views, count_shared_bits, find_nearest, fresh_node, law_nearer_in_bucket,
    law_nearest, lemma_node_index, lemma_shared_bits_bound, nearest, node_index, shared_bits,
    Bucket, KBucket, Node, KBUCKET_SIZE, MAX_BUCKETS,
};
use super::nodeid::{distance_less, NodeId};
use crate::clock::system_time;
use vstd::prelude::*;

verus! {

/// Why a node was not put into the table.
#[derive(Debug, Clone, Copy, PartialEq, Eq, Structural)]
pub enum UpdateNodeError {
    /// The bucket of the node is full.
    Full,
    /// The identifier or the address is in the table, but not with the other.
    Mismatch,
    /// The bucket of the node is full and can be split.
    NeedSplit,
}

/// Where a node belongs once the first bucket is split.
#[derive(Debug, Clone, Copy, PartialEq, Eq, Structural)]
enum SplitBucketPosition {
    CurrentBucket,
    NewBucket,
    WrongBucket(usize),
}

/// A routing table.
#[derive(Debug)]
pub struct RoutingTable {
    endpoints: AddrSet,
    buckets: Vec<KBucket>,
    id: NodeId,
}

/// What a routing table holds: the own identifier, the addresses of the nodes, and the
/// buckets.
#[verifier::ext_equal]
pub struct Table {
    pub id: NodeId,
    pub endpoints: Set<SocketAddr>,
    pub buckets: Seq<Bucket>,
}

impl View for RoutingTable {
    type V = Table;

    closed spec fn view(&self) -> Table {
        Table {
            id: self.id,
            endpoints: self.endpoints@,
            buckets: bucket_views(self.buckets@),
        }
    }
}

/// The bucket, of `len` buckets, in which an identifier belongs.
pub open spec fn bucket_index(id: NodeId, len: int, target: NodeId) -> int {
    let shared = shared_bits(id, target);
    if shared >= len - 1 {
        0
    } else {
        len - 1 - shared
    }
}

/// How many of the nodes share at least `len` bits with `id`.
pub open spec fn count_near(id: NodeId, len: int, nodes: Seq<Node>) -> nat
    decreases nodes.len(),
{
    if nodes.len() == 0 {
        0
    } else {
        count_near(id, len, nodes.drop_last()) + (if shared_bits(id, nodes.last().id) >= len {
            1nat
        } else {
            0
        })
    }
}

impl Table {
    /// The number of buckets is in range, every node is in the bucket where it belongs,
    /// no bucket is too full, no two nodes have the same identifier or address, and the
    /// endpoints are exactly the addresses of the nodes.
    pub open spec fn wf(self) -> bool {
        &&& 1 <= self.buckets.len() <= MAX_BUCKETS
        &&& forall|i: int|
            0 <= i < self.buckets.len() ==> (#[trigger] self.buckets[i]).nodes.len()
                <= KBUCKET_SIZE
        &&& forall|i: int, j: int|
            self.has(i, j) ==> self.node_ok(i, #[trigger] self.buckets[i].nodes[j])
        &&& forall|i: int, j: int, k: int, l: int|
            self.has(i, j) && self.has(k, l) && (i != k || j != l) ==> differ(
                #[trigger] self.buckets[i].nodes[j],
                #[trigger] self.buckets[k].nodes[l],
            )
        &&& forall|ip: SocketAddr| #[trigger]
            self.endpoints.contains(ip) ==> exists|i: int, j: int|
                self.has(i, j) && (#[trigger] self.buckets[i].nodes[j]).ip == ip
    }

    /// Whether there is a node at position `j` of bucket `i`.
    pub open spec fn has(self, i: int, j: int) -> bool {
        0 <= i < self.buckets.len() && 0 <= j < self.buckets[i].nodes.len()
    }

    /// What holds of a node in bucket `i`.
    pub open spec fn node_ok(self, i: int, node: Node) -> bool {
        &&& bucket_index(self.id, self.buckets.len() as int, node.id) == i
        &&& self.endpoints.contains(node.ip)
    }

    /// The bucket in which an identifier belongs.
    pub open spec fn index_of(self, target: NodeId) -> int {
        bucket_index(self.id, self.buckets.len() as int, target)
    }

    /// The position of a node in the bucket where it belongs.
    pub open spec fn find(self, target: NodeId) -> Option<int> {
        node_index(self.buckets[self.index_of(target)].nodes, target)
    }

    /// Whether a split of the first bucket would leave room for an identifier: at least
    /// one place besides its own.
    pub open spec fn can_split(self, target: NodeId) -> bool {
        let len = self.buckets.len() as int;
        let nodes = self.buckets[0].nodes;
        let near = count_near(self.id, len, nodes);
        if shared_bits(self.id, target) >= len {
            near + 1 < KBUCKET_SIZE
        } else {
            nodes.len() - near + 1 < KBUCKET_SIZE
        }
    }

    /// What `update_node` returns.
    pub open spec fn update_result(self, target: NodeId, ip: SocketAddr) -> Result<
        (),
        UpdateNodeError,
    > {
        let b = self.index_of(target);
        let nodes = self.buckets[b].nodes;
        match self.find(target) {
            Some(p) => if nodes[p].ip == ip {
                Ok(())
            } else {
                Err(UpdateNodeError::Mismatch)
            },
            None => if self.endpoints.contains(ip) {
                Err(UpdateNodeError::Mismatch)
            } else if nodes.len() < KBUCKET_SIZE {
                Ok(())
            } else if b == 0 && self.buckets.len() < MAX_BUCKETS && self.can_split(target) {
                Err(UpdateNodeError::NeedSplit)
            } else {
                Err(UpdateNodeError::Full)
            },
        }
    }

    /// The table after `update_node` at `now`: a node that is known was just seen, a node
    /// that is not is put at the end of its bucket.
    pub open spec fn update(self, target: NodeId, ip: SocketAddr, now: u128) -> Table {
        let b = self.index_of(target);
        let nodes = self.buckets[b].nodes;
        if self.update_result(target, ip) is Err {
            self
        } else {
            match self.find(target) {
                Some(p) => Table {
                    buckets: self.buckets.update(
                        b,
                        Bucket {
                            nodes: nodes.update(p, Node { last_seen: now, ..nodes[p] }),
                            last_seen: now,
                        },
                    ),
                    ..self
                },
                None => Table {
                    buckets: self.buckets.update(
                        b,
                        Bucket { nodes: nodes.push(fresh_node(target, ip, now)), last_seen: now },
                    ),
                    endpoints: self.endpoints.insert(ip),
                    ..self
                },
            }
        }
    }

    /// Whether a node of the first bucket stays there when it is split.
    pub open spec fn stays(self, node: Node) -> bool {
        shared_bits(self.id, node.id) >= self.buckets.len()
    }

    /// The table with its first bucket split: the nodes that are farther go to a new
    /// bucket behind it.
    pub open spec fn split(self) -> Table {
        if self.buckets.len() == MAX_BUCKETS {
            self
        } else {
            let first = self.buckets[0];
            Table {
                buckets: self.buckets.update(
                    0,
                    Bucket {
                        nodes: first.nodes.filter(|node: Node| self.stays(node)),
                        last_seen: first.last_seen,
                    },
                ).insert(
                    1,
                    Bucket {
                        nodes: first.nodes.filter(|node: Node| !self.stays(node)),
                        last_seen: first.last_seen,
                    },
                ),
                ..self
            }
        }
    }

    /// The table without the node of that id.
    pub open spec fn remove(self, target: NodeId) -> Table {
        match self.find(target) {
            Some(p) => {
                let b = self.index_of(target);
                let bucket = self.buckets[b];
                Table {
                    buckets: self.buckets.update(
                        b,
                        Bucket {
                            nodes: bucket.nodes.update(p, bucket.nodes.last()).drop_last(),
                            ..bucket
                        },
                    ),
                    endpoints: self.endpoints.remove(bucket.nodes[p].ip),
                    ..self
                }
            },
            None => self,
        }
    }

    /// Whether bucket `i` is the first of those that were seen longest ago.
    pub open spec fn is_oldest_bucket(self, i: int) -> bool {
        &&& 0 <= i < self.buckets.len()
        &&& forall|k: int|
            0 <= k < self.buckets.len() ==> (if k < i {
                self.buckets[i].last_seen < (#[trigger] self.buckets[k]).last_seen
            } else {
                self.buckets[i].last_seen <= self.buckets[k].last_seen
            })
    }

    /// What `next_refresh_node` returns at `now`, where bucket `i` is the oldest.
    pub open spec fn refresh_result(self, i: int, now: u128, r: Option<
        (NodeId, SocketAddr, u128),
    >) -> bool {
        let nodes = self.buckets[i].nodes;
        if nodes.len() == 0 {
            r is None
        } else {
            exists|j: int| #[trigger]
                is_oldest_node(nodes, j) && r == (if now < nodes[j].last_seen {
                    None
                } else {
                    Some((nodes[j].id, nodes[j].ip, (now - nodes[j].last_seen) as u128))
                })
        }
    }

    /// Whether a node is in the table.
    pub open spec fn holds(self, node: Node) -> bool {
        exists|i: int, j: int| self.has(i, j) && #[trigger] self.buckets[i].nodes[j] == node
    }
}

/// Whether two nodes differ in both their identifier and their address.
pub open spec fn differ(a: Node, b: Node) -> bool {
    a.id != b.id && a.ip != b.ip
}

/// Whether the node at position `j` is the first of those that were seen longest ago.
pub open spec fn is_oldest_node(nodes: Seq<Node>, j: int) -> bool {
    &&& 0 <= j < nodes.len()
    &&& forall|k: int|
        0 <= k < nodes.len() ==> (if k < j {
            nodes[j].last_seen < (#[trigger] nodes[k]).last_seen
        } else {
            nodes[j].last_seen <= nodes[k].last_seen
        })
}

impl RoutingTable {
    /// Whether the table is well formed.
    pub closed spec fn wf(&self) -> bool {
        self.endpoints.wf() && self@.wf()
    }

    /// A table with one empty bucket.
    pub fn new(id: NodeId) -> (r: RoutingTable)
        ensures
            r.wf(),
            r@.wf(),
            r@.id == id,
            r@.endpoints == Set::<SocketAddr>::empty(),
            r@.buckets.len() == 1,
            r@.buckets[0].nodes == Seq::<Node>::empty(),
    {
        let mut buckets: Vec<KBucket> = Vec::new();
        buckets.push(KBucket::new());
        RoutingTable { endpoints: AddrSet::new(), buckets, id }
    }

    /// How many buckets there are.
    pub fn buckets_len(&self) -> (r: usize)
        ensures
            r == self@.buckets.len(),
    {
        self.buckets.len()
    }

    /// The bucket in which an identifier belongs.
    pub fn calc_bucket_index(&self, target: NodeId) -> (r: usize)
        requires
            self.wf(),
        ensures
            r == self@.index_of(target),
            r < self@.buckets.len(),
    {
        let shared: usize = count_shared_bits(&self.id, &target);
        if shared >= self.buckets.len() - 1 {
            return 0;
        }
        self.buckets.len() - 1 - shared
    }

    /// Where a node belongs after a split, of which there are `buckets_len` buckets before.
    fn calc_node_pos_after_split(self_id: NodeId, buckets_len: usize, target: NodeId) -> (r:
        SplitBucketPosition)
        requires
            1 <= buckets_len,
        ensures
            ({
                let shared = shared_bits(self_id, target);
                if shared >= buckets_len {
                    r == SplitBucketPosition::CurrentBucket
                } else if shared == buckets_len - 1 {
                    r == SplitBucketPosition::NewBucket
                } else {
                    r == SplitBucketPosition::WrongBucket(shared as usize)
                }
            }),
    {
        let shared: usize = count_shared_bits(&self_id, &target);
        if shared >= buckets_len {
            SplitBucketPosition::CurrentBucket
        } else if shared >= buckets_len - 1 {
            SplitBucketPosition::NewBucket
        } else {
            SplitBucketPosition::WrongBucket(shared)
        }
    }

    /// The bucket and position of the node with that id.
    fn find_node(&self, target: NodeId) -> (r: Option<(usize, usize)>)
        requires
            self.wf(),
        ensures
            match r {
                Some((b, p)) => b == self@.index_of(target) && self@.find(target) == Some(p as int)
                    && b < self.buckets@.len() && p < self.buckets@[b as int].nodes@.len()
                    && self.buckets@[b as int].nodes@[p as int].id == target,
                None => self@.find(target) is None,
            },
    {
        let b: usize = self.calc_bucket_index(target);
        match self.buckets[b].index_of(&target) {
            Some(p) => Some((b, p)),
            None => None,
        }
    }

    /// The closest nodes of the target, from the nearest on, not more than a bucket holds.
    pub fn find_closest_nodes(&self, target: NodeId) -> (r: Vec<(NodeId, SocketAddr)>)
        ensures
            r@ == nearest(self@.buckets, target),
            r@.len() <= KBUCKET_SIZE,
    {
        proof {
            law_nearest(self@.buckets, target);
        }
        find_nearest(&self.buckets, target)
    }

    /// Updates the node that was just heard of, or puts it into the table.
    pub fn update_node(&mut self, target: NodeId, ip: &SocketAddr) -> (r: Result<
        (),
        UpdateNodeError,
    >)
        requires
            old(self).wf(),
        ensures
            final(self).wf(),
            r == old(self)@.update_result(target, *ip),
            exists|now: u128| final(self)@ == old(self)@.update(target, *ip, now),
    {
        let now: u128 = system_time();
        let r = self.update_node_at(target, ip, now);
        assert(self@ == old(self)@.update(target, *ip, now));
        r
    }

    /// Updates the node that was heard of at `now`, or puts it into the table.
    pub fn update_node_at(&mut self, target: NodeId, ip: &SocketAddr, now: u128) -> (r: Result<
        (),
        UpdateNodeError,
    >)
        requires
            old(self).wf(),
        ensures
            final(self).wf(),
            r == old(self)@.update_result(target, *ip),
            final(self)@ == old(self)@.update(target, *ip, now),
    {
        proof {
            law_update_wf(self@, target, *ip, now);
        }
        let idx: usize = self.calc_bucket_index(target);
        let buckets_len: usize = self.buckets.len();
        match self.buckets[idx].index_of(&target) {
            Some(p) => {
                if self.buckets[idx].nodes[p].ip != *ip {
                    return Err(UpdateNodeError::Mismatch);
                }
                self.buckets[idx].nodes[p].last_seen = now;
                self.buckets[idx].last_seen = now;
                assert(self@ =~= old(self)@.update(target, *ip, now));
                return Ok(());
            },
            None => {},
        }
        if self.endpoints.contains(ip) {
            return Err(UpdateNodeError::Mismatch);
        }
        assert(self@.buckets[idx as int].nodes.len() <= KBUCKET_SIZE);
        if self.buckets[idx].nodes.len() == KBUCKET_SIZE {
            if !(idx == 0 && buckets_len < MAX_BUCKETS) || !self.check_can_split(target) {
                return Err(UpdateNodeError::Full);
            }
            return Err(UpdateNodeError::NeedSplit);
        }
        self.buckets[idx].nodes.push(Node::new_at(target, *ip, now));
        self.buckets[idx].last_seen = now;
        self.endpoints.insert(*ip);
        assert(self@ =~= old(self)@.update(target, *ip, now));
        Ok(())
    }

    /// Whether a split would leave room for the node.
    fn check_can_split(&self, target: NodeId) -> (r: bool)
        requires
            self.wf(),
        ensures
            r == self@.can_split(target),
    {
        let buckets_len: usize = self.buckets.len();
        let ghost nodes = self.buckets@[0].nodes@;
        assert(self@.buckets[0].nodes.len() <= KBUCKET_SIZE);
        let mut new_counts: usize = 0;
        let mut cur_counts: usize = 0;
        let mut i: usize = 0;
        while i < self.buckets[0].nodes.len()
            invariant
                1 <= buckets_len,
                buckets_len == self.buckets@.len(),
                nodes == self.buckets@[0].nodes@,
                nodes.len() <= KBUCKET_SIZE,
                i <= nodes.len(),
                cur_counts == count_near(self.id, buckets_len as int, nodes.take(i as int)),
                cur_counts + new_counts == i,
            decreases nodes.len() - i,
        {
            let node: Node = self.buckets[0].nodes[i];
            assert(nodes.take(i + 1).drop_last() =~= nodes.take(i as int));
            assert(nodes.take(i + 1).last() == node);
            match RoutingTable::calc_node_pos_after_split(self.id, buckets_len, node.id) {
                SplitBucketPosition::CurrentBucket => {
                    cur_counts += 1;
                },
                SplitBucketPosition::NewBucket => {
                    new_counts += 1;
                },
                SplitBucketPosition::WrongBucket(_) => {
                    new_counts += 1;
                },
            }
            i += 1;
        }
        assert(nodes.take(i as int) =~= nodes);
        match RoutingTable::calc_node_pos_after_split(self.id, buckets_len, target) {
            SplitBucketPosition::CurrentBucket => cur_counts + 1 < KBUCKET_SIZE,
            SplitBucketPosition::NewBucket => new_counts + 1 < KBUCKET_SIZE,
            SplitBucketPosition::WrongBucket(_) => new_counts + 1 < KBUCKET_SIZE,
        }
    }

    /// Takes the node of that id out of the table.
    pub fn remove_node(&mut self, target: NodeId) -> (r: Option<(NodeId, SocketAddr)>)
        requires
            old(self).wf(),
        ensures
            final(self).wf(),
            final(self)@ == old(self)@.remove(target),
            r == (match old(self)@.find(target) {
                Some(p) => Some(
                    (target, old(self)@.buckets[old(self)@.index_of(target)].nodes[p].ip),
                ),
                None => None,
            }),
    {
        proof {
            law_remove_wf(self@, target);
        }
        match self.find_node(target) {
            Some((b, p)) => {
                let node: Node = self.buckets[b].nodes.swap_remove(p);
                self.endpoints.remove(&node.ip);
                assert(self@ =~= old(self)@.remove(target));
                Some((node.id, node.ip))
            },
            None => None,
        }
    }

    /// Splits the first bucket, unless there are as many buckets as there can be.
    pub fn split_bucket(&mut self)
        requires
            old(self).wf(),
        ensures
            final(self).wf(),
            final(self)@ == old(self)@.split(),
    {
        proof {
            law_split_wf(self@);
        }
        let buckets_len: usize = self.buckets.len();
        if buckets_len == MAX_BUCKETS {
            return;
        }
        let ghost t = self@;
        let ghost nodes = t.buckets[0].nodes;
        let ghost pred = |node: Node| t.stays(node);
        let ghost not_pred = |node: Node| !t.stays(node);
        let mut current: Vec<Node> = Vec::new();
        let mut new_nodes: Vec<Node> = Vec::new();
        let mut i: usize = 0;
        proof {
            reveal(Seq::filter);
            assert(nodes.take(0).filter(pred) =~= seq![]);
            assert(nodes.take(0).filter(not_pred) =~= seq![]);
        }
        while i < self.buckets[0].nodes.len()
            invariant
                *self == *old(self),
                t == self@,
                1 <= buckets_len,
                buckets_len == self.buckets@.len(),
                nodes == self.buckets@[0].nodes@,
                i <= nodes.len(),
                pred == (|node: Node| t.stays(node)),
                not_pred == (|node: Node| !t.stays(node)),
                current@ == nodes.take(i as int).filter(pred),
                new_nodes@ == nodes.take(i as int).filter(not_pred),
            decreases nodes.len() - i,
        {
            let node: Node = self.buckets[0].nodes[i];
            proof {
                reveal(Seq::filter);
                assert(nodes.take(i + 1).drop_last() =~= nodes.take(i as int));
                assert(nodes.take(i + 1).last() == node);
            }
            match RoutingTable::calc_node_pos_after_split(self.id, buckets_len, node.id) {
                SplitBucketPosition::CurrentBucket => {
                    current.push(node);
                },
                SplitBucketPosition::NewBucket => {
                    new_nodes.push(node);
                },
                SplitBucketPosition::WrongBucket(_) => {
                    new_nodes.push(node);
                },
            }
            i += 1;
        }
        assert(nodes.take(i as int) =~= nodes);
        let last_seen: u128 = self.buckets[0].last_seen;
        self.buckets[0].nodes = current;
        self.buckets.insert(1, KBucket { nodes: new_nodes, last_seen });
        assert(self@ =~= t.split());
    }

    /// The node that was seen longest ago, of the bucket that was seen longest ago, and
    /// the nanoseconds since.
    pub fn next_refresh_node(&self) -> (r: Option<(NodeId, SocketAddr, u128)>)
        requires
            self.wf(),
        ensures
            exists|i: int, now: u128|
                self@.is_oldest_bucket(i) && #[trigger] self@.refresh_result(i, now, r),
    {
        let now: u128 = system_time();
        let r = self.next_refresh_node_at(now);
        proof {
            let i = choose|i: int|
                #[trigger] self@.is_oldest_bucket(i) && self@.refresh_result(i, now, r);
            assert(self@.refresh_result(i, now, r));
        }
        r
    }

    /// As `next_refresh_node`, at `now`.
    pub fn next_refresh_node_at(&self, now: u128) -> (r: Option<(NodeId, SocketAddr, u128)>)
        requires
            self.wf(),
        ensures
            exists|i: int|
                #[trigger] self@.is_oldest_bucket(i) && self@.refresh_result(i, now, r),
    {
        let mut b: usize = 0;
        let mut i: usize = 1;
        while i < self.buckets.len()
            invariant
                1 <= i <= self.buckets@.len(),
                b < i,
                forall|k: int|
                    0 <= k < i ==> (if k < b {
                        self.buckets@[b as int].last_seen < (#[trigger] self.buckets@[k]).last_seen
                    } else {
                        self.buckets@[b as int].last_seen <= self.buckets@[k].last_seen
                    }),
            decreases self.buckets@.len() - i,
        {
            if self.buckets[i].last_seen < self.buckets[b].last_seen {
                b = i;
            }
            i += 1;
        }
        assert(self@.is_oldest_bucket(b as int)) by {
            assert forall|k: int| 0 <= k < self@.buckets.len() implies (if k < b {
                self@.buckets[b as int].last_seen < (#[trigger] self@.buckets[k]).last_seen
            } else {
                self@.buckets[b as int].last_seen <= self@.buckets[k].last_seen
            }) by {
                assert(self@.buckets[k].last_seen == self.buckets@[k].last_seen);
            }
        }
        let ghost nodes = self.buckets@[b as int].nodes@;
        if self.buckets[b].nodes.len() == 0 {
            assert(self@.refresh_result(b as int, now, None));
            return None;
        }
        let mut p: usize = 0;
        let mut j: usize = 1;
        while j < self.buckets[b].nodes.len()
            invariant
                b < self.buckets@.len(),
                nodes == self.buckets@[b as int].nodes@,
                1 <= j <= nodes.len(),
                p < j,
                forall|k: int|
                    0 <= k < j ==> (if k < p {
                        nodes[p as int].last_seen < (#[trigger] nodes[k]).last_seen
                    } else {
                        nodes[p as int].last_seen <= nodes[k].last_seen
                    }),
            decreases nodes.len() - j,
        {
            if self.buckets[b].nodes[j].last_seen < self.buckets[b].nodes[p].last_seen {
                p = j;
            }
            j += 1;
        }
        assert(is_oldest_node(nodes, p as int));
        let node: Node = self.buckets[b].nodes[p];
        let r = if now < node.last_seen {
            None
        } else {
            Some((node.id, node.ip, now - node.last_seen))
        };
        assert(self@.refresh_result(b as int, now, r));
        r
    }

    /// How many nodes there are.
    pub fn nodes_len(&self) -> (r: usize)
        requires
            self.wf(),
        ensures
            r == all_nodes(self@.buckets, self@.buckets.len() as int).len(),
    {
        let mut len: usize = 0;
        let mut b: usize = 0;
        while b < self.buckets.len()
            invariant
                self.wf(),
                b <= self.buckets@.len(),
                self.buckets@.len() <= MAX_BUCKETS,
                len == all_nodes(self@.buckets, b as int).len(),
                len <= KBUCKET_SIZE * b,
            decreases self.buckets@.len() - b,
        {
            assert(self@.buckets[b as int].nodes.len() <= KBUCKET_SIZE);
            len += self.buckets[b].nodes.len();
            b += 1;
        }
        len
    }
}

/// A well-formed table stays so by an update.
pub proof fn law_update_wf(t: Table, target: NodeId, ip: SocketAddr, now: u128)
    requires
        t.wf(),
    ensures
        t.update(target, ip, now).wf(),
{
    let b = t.index_of(target);
    let nodes = t.buckets[b].nodes;
    let u = t.update(target, ip, now);
    lemma_shared_bits_bound(t.id, target);
    lemma_node_index(nodes, target, 0);
    if t.update_result(target, ip) is Ok {
        assert forall|i: int, j: int| u.has(i, j) implies u.node_ok(
            i,
            #[trigger] u.buckets[i].nodes[j],
        ) by {
            if t.has(i, j) {
                assert(t.node_ok(i, t.buckets[i].nodes[j]));
            }
        }
        assert forall|i: int, j: int, k: int, l: int|
            u.has(i, j) && u.has(k, l) && (i != k || j != l) implies differ(
            #[trigger] u.buckets[i].nodes[j],
            #[trigger] u.buckets[k].nodes[l],
        ) by {
            if t.has(i, j) && t.has(k, l) {
                assert(differ(t.buckets[i].nodes[j], t.buckets[k].nodes[l]));
            } else if t.has(i, j) {
                assert(t.node_ok(i, t.buckets[i].nodes[j]));
            } else {
                assert(t.has(k, l));
                assert(t.node_ok(k, t.buckets[k].nodes[l]));
            }
        }
        assert forall|x: SocketAddr| #[trigger] u.endpoints.contains(x) implies exists|
            i: int,
            j: int,
        |
            u.has(i, j) && (#[trigger] u.buckets[i].nodes[j]).ip == x by {
            if t.endpoints.contains(x) {
                let (i, j) = choose|i: int, j: int|
                    t.has(i, j) && (#[trigger] t.buckets[i].nodes[j]).ip == x;
                assert(u.has(i, j));
                assert(u.buckets[i].nodes[j].ip == x);
            } else {
                assert(u.has(b, nodes.len() as int));
                assert(u.buckets[b].nodes[nodes.len() as int].ip == x);
            }
        }
    }
}

/// The members of a filtered sequence are members that meet the condition.
proof fn lemma_filter_member(s: Seq<Node>, pred: spec_fn(Node) -> bool, i: int) -> (k: int)
    requires
        0 <= i < s.filter(pred).len(),
    ensures
        0 <= k < s.len(),
        s[k] == s.filter(pred)[i],
        pred(s[k]),
    decreases s.len(),
{
    reveal(Seq::filter);
    let t = s.drop_last();
    if i < t.filter(pred).len() {
        lemma_filter_member(t, pred, i)
    } else {
        s.len() - 1
    }
}

/// A member that meets the condition is in the filtered sequence.
proof fn lemma_filter_has(s: Seq<Node>, pred: spec_fn(Node) -> bool, i: int) -> (k: int)
    requires
        0 <= i < s.len(),
        pred(s[i]),
    ensures
        0 <= k < s.filter(pred).len(),
        s.filter(pred)[k] == s[i],
    decreases s.len(),
{
    reveal(Seq::filter);
    let t = s.drop_last();
    if i < t.len() {
        lemma_filter_has(t, pred, i)
    } else {
        t.filter(pred).len() as int
    }
}

/// A filtered sequence of nodes that differ is one of nodes that differ.
proof fn lemma_filter_distinct(s: Seq<Node>, pred: spec_fn(Node) -> bool)
    requires
        forall|j: int, l: int|
            0 <= j < s.len() && 0 <= l < s.len() && j != l ==> differ(
                #[trigger] s[j],
                #[trigger] s[l],
            ),
    ensures
        s.filter(pred).len() <= s.len(),
        forall|j: int, l: int|
            0 <= j < s.filter(pred).len() && 0 <= l < s.filter(pred).len() && j != l ==> differ(
                #[trigger] s.filter(pred)[j],
                #[trigger] s.filter(pred)[l],
            ),
    decreases s.len(),
{
    reveal(Seq::filter);
    if s.len() > 0 {
        let t = s.drop_last();
        let f = t.filter(pred);
        assert forall|j: int, l: int|
            0 <= j < t.len() && 0 <= l < t.len() && j != l implies differ(
            #[trigger] t[j],
            #[trigger] t[l],
        ) by {
            assert(t[j] == s[j] && t[l] == s[l]);
        }
        lemma_filter_distinct(t, pred);
        if pred(s.last()) {
            let g = s.filter(pred);
            assert forall|j: int, l: int|
                0 <= j < g.len() && 0 <= l < g.len() && j != l implies differ(
                #[trigger] g[j],
                #[trigger] g[l],
            ) by {
                let last = s.len() - 1;
                if j == f.len() {
                    let k = lemma_filter_member(t, pred, l);
                    assert(differ(s[k], s[last]));
                } else if l == f.len() {
                    let k = lemma_filter_member(t, pred, j);
                    assert(differ(s[k], s[last]));
                } else {
                    assert(g[j] == f[j] && g[l] == f[l]);
                }
            }
        }
    }
}

/// The place in a table from which a node of its split comes.
proof fn lemma_split_origin(t: Table, i: int, j: int) -> (r: (int, int))
    requires
        t.wf(),
        t.buckets.len() < MAX_BUCKETS,
        t.split().has(i, j),
    ensures
        t.has(r.0, r.1),
        t.buckets[r.0].nodes[r.1] == t.split().buckets[i].nodes[j],
        i >= 2 ==> r == (i - 1, j),
        i < 2 ==> r.0 == 0,
        i == 0 ==> t.stays(t.buckets[r.0].nodes[r.1]),
        i == 1 ==> !t.stays(t.buckets[r.0].nodes[r.1]),
{
    if i == 0 {
        (0, lemma_filter_member(t.buckets[0].nodes, |node: Node| t.stays(node), j))
    } else if i == 1 {
        (0, lemma_filter_member(t.buckets[0].nodes, |node: Node| !t.stays(node), j))
    } else {
        (i - 1, j)
    }
}

/// A split neither loses a node nor adds one.
pub proof fn law_split_same_nodes(t: Table, node: Node)
    requires
        t.wf(),
    ensures
        t.split().holds(node) == t.holds(node),
{
    let u = t.split();
    if t.buckets.len() < MAX_BUCKETS {
        if u.holds(node) {
            let (i, j) = choose|i: int, j: int|
                u.has(i, j) && #[trigger] u.buckets[i].nodes[j] == node;
            let (k, l) = lemma_split_origin(t, i, j);
            assert(t.buckets[k].nodes[l] == node);
        }
        if t.holds(node) {
            let (i, j) = choose|i: int, j: int|
                t.has(i, j) && #[trigger] t.buckets[i].nodes[j] == node;
            if i > 0 {
                assert(u.has(i + 1, j));
                assert(u.buckets[i + 1].nodes[j] == node);
            } else if t.stays(node) {
                let l = lemma_filter_has(t.buckets[0].nodes, |node: Node| t.stays(node), j);
                assert(u.has(0, l));
                assert(u.buckets[0].nodes[l] == node);
            } else {
                let l = lemma_filter_has(t.buckets[0].nodes, |node: Node| !t.stays(node), j);
                assert(u.has(1, l));
                assert(u.buckets[1].nodes[l] == node);
            }
        }
    }
}

/// A well-formed table stays so by a split: every node is in the bucket where it belongs
/// among one more.
pub proof fn law_split_wf(t: Table)
    requires
        t.wf(),
    ensures
        t.split().wf(),
{
    let u = t.split();
    let len = t.buckets.len() as int;
    if len < MAX_BUCKETS {
        let nodes = t.buckets[0].nodes;
        let pred = |node: Node| t.stays(node);
        let not_pred = |node: Node| !t.stays(node);
        assert forall|j: int, l: int|
            0 <= j < nodes.len() && 0 <= l < nodes.len() && j != l implies differ(
            #[trigger] nodes[j],
            #[trigger] nodes[l],
        ) by {
            assert(t.has(0, j) && t.has(0, l));
            assert(differ(t.buckets[0].nodes[j], t.buckets[0].nodes[l]));
        }
        lemma_filter_distinct(nodes, pred);
        lemma_filter_distinct(nodes, not_pred);
        assert forall|i: int| 0 <= i < u.buckets.len() implies (
        #[trigger] u.buckets[i]).nodes.len() <= KBUCKET_SIZE by {
            assert(t.buckets[0].nodes.len() <= KBUCKET_SIZE);
            if i > 1 {
                assert(u.buckets[i] == t.buckets[i - 1]);
            }
        }
        assert forall|i: int, j: int| u.has(i, j) implies u.node_ok(
            i,
            #[trigger] u.buckets[i].nodes[j],
        ) by {
            let (k, l) = lemma_split_origin(t, i, j);
            assert(t.node_ok(k, t.buckets[k].nodes[l]));
            lemma_shared_bits_bound(t.id, t.buckets[k].nodes[l].id);
        }
        assert forall|i: int, j: int, k: int, l: int|
            u.has(i, j) && u.has(k, l) && (i != k || j != l) implies differ(
            #[trigger] u.buckets[i].nodes[j],
            #[trigger] u.buckets[k].nodes[l],
        ) by {
            let (a, b) = lemma_split_origin(t, i, j);
            let (c, d) = lemma_split_origin(t, k, l);
            if i == k && i <= 1 {
                if i == 0 {
                    assert(u.buckets[i].nodes == nodes.filter(pred));
                } else {
                    assert(u.buckets[i].nodes == nodes.filter(not_pred));
                }
            } else {
                assert(a != c || b != d);
                assert(differ(t.buckets[a].nodes[b], t.buckets[c].nodes[d]));
            }
        }
        assert forall|x: SocketAddr| #[trigger] u.endpoints.contains(x) implies exists|
            i: int,
            j: int,
        |
            u.has(i, j) && (#[trigger] u.buckets[i].nodes[j]).ip == x by {
            let (i, j) = choose|i: int, j: int|
                t.has(i, j) && (#[trigger] t.buckets[i].nodes[j]).ip == x;
            let node = t.buckets[i].nodes[j];
            law_split_same_nodes(t, node);
            let (k, l) = choose|k: int, l: int|
                u.has(k, l) && #[trigger] u.buckets[k].nodes[l] == node;
            assert(u.buckets[k].nodes[l].ip == x);
        }
    }
}

/// A well-formed table stays so when a node is removed, and then does not know the node.
pub proof fn law_remove_wf(t: Table, target: NodeId)
    requires
        t.wf(),
    ensures
        t.remove(target).wf(),
        t.remove(target).find(target) is None,
{
    let u = t.remove(target);
    let b = t.index_of(target);
    lemma_shared_bits_bound(t.id, target);
    lemma_node_index(t.buckets[b].nodes, target, 0);
    if let Some(p) = t.find(target) {
        let last = t.buckets[b].nodes.len() - 1;
        assert(t.has(b, p));
        let origin = |i: int, j: int| if i == b && j == p { last } else { j };
        assert forall|i: int, j: int| u.has(i, j) implies u.node_ok(
            i,
            #[trigger] u.buckets[i].nodes[j],
        ) by {
            let k = origin(i, j);
            assert(t.has(i, k));
            assert(u.buckets[i].nodes[j] == t.buckets[i].nodes[k]);
            assert(t.node_ok(i, t.buckets[i].nodes[k]));
            assert(differ(t.buckets[i].nodes[k], t.buckets[b].nodes[p]));
        }
        assert forall|i: int, j: int, k: int, l: int|
            u.has(i, j) && u.has(k, l) && (i != k || j != l) implies differ(
            #[trigger] u.buckets[i].nodes[j],
            #[trigger] u.buckets[k].nodes[l],
        ) by {
            let x = origin(i, j);
            let y = origin(k, l);
            assert(t.has(i, x) && t.has(k, y));
            assert(u.buckets[i].nodes[j] == t.buckets[i].nodes[x]);
            assert(u.buckets[k].nodes[l] == t.buckets[k].nodes[y]);
            assert(differ(t.buckets[i].nodes[x], t.buckets[k].nodes[y]));
        }
        assert forall|x: SocketAddr| #[trigger] u.endpoints.contains(x) implies exists|
            i: int,
            j: int,
        |
            u.has(i, j) && (#[trigger] u.buckets[i].nodes[j]).ip == x by {
            let (i, j) = choose|i: int, j: int|
                t.has(i, j) && (#[trigger] t.buckets[i].nodes[j]).ip == x;
            let k = if i == b && j == last { p } else { j };
            assert(u.has(i, k));
            assert(u.buckets[i].nodes[k].ip == x);
        }
        let rest = u.buckets[b].nodes;
        assert forall|j: int| 0 <= j < rest.len() implies (#[trigger] rest[j]).id != target by {
            let k = origin(b, j);
            assert(t.has(b, k));
            assert(rest[j] == t.buckets[b].nodes[k]);
            assert(differ(t.buckets[b].nodes[k], t.buckets[b].nodes[p]));
        }
        lemma_node_index(rest, target, 0);
    }
}

/// A node that was added or updated is found, at its address.
pub proof fn law_update_finds(t: Table, target: NodeId, ip: SocketAddr, now: u128)
    requires
        t.wf(),
        t.update_result(target, ip) is Ok,
    ensures
        ({
            let u = t.update(target, ip, now);
            u.find(target) matches Some(p) && u.buckets[u.index_of(target)].nodes[p].ip == ip
        }),
{
    let b = t.index_of(target);
    let u = t.update(target, ip, now);
    lemma_shared_bits_bound(t.id, target);
    let nodes = t.buckets[b].nodes;
    lemma_node_index(nodes, target, 0);
    law_update_wf(t, target, ip, now);
    let p = match t.find(target) {
        Some(p) => p,
        None => nodes.len() as int,
    };
    let new = u.buckets[b].nodes;
    assert(new[p].id == target && new[p].ip == ip);
    lemma_node_index(new, target, 0);
    let q = u.find(target)->Some_0;
    if q != p {
        assert(u.has(b, p) && u.has(b, q));
        assert(differ(u.buckets[b].nodes[p], u.buckets[b].nodes[q]));
    }
}

/// The sizes of the two parts of a split.
proof fn lemma_split_sizes(t: Table, nodes: Seq<Node>)
    ensures
        nodes.filter(|node: Node| t.stays(node)).len() == count_near(
            t.id,
            t.buckets.len() as int,
            nodes,
        ),
        nodes.filter(|node: Node| !t.stays(node)).len() == nodes.len() - count_near(
            t.id,
            t.buckets.len() as int,
            nodes,
        ),
    decreases nodes.len(),
{
    reveal(Seq::filter);
    if nodes.len() > 0 {
        lemma_split_sizes(t, nodes.drop_last());
    }
}

/// Where a split is asked for, it makes room: the node can then be put in.
pub proof fn law_split_makes_room(t: Table, target: NodeId, ip: SocketAddr)
    requires
        t.wf(),
        t.update_result(target, ip) == Err::<(), UpdateNodeError>(UpdateNodeError::NeedSplit),
    ensures
        t.split().update_result(target, ip) is Ok,
{
    let u = t.split();
    let nodes = t.buckets[0].nodes;
    lemma_shared_bits_bound(t.id, target);
    lemma_split_sizes(t, nodes);
    law_split_wf(t);
    let b = u.index_of(target);
    let rest = u.buckets[b].nodes;
    lemma_node_index(nodes, target, 0);
    lemma_node_index(rest, target, 0);
    if let Some(p) = u.find(target) {
        assert(u.has(b, p));
        let (k, l) = lemma_split_origin(t, b, p);
        assert(t.node_ok(k, t.buckets[k].nodes[l]));
        assert(nodes[l].id != target);
    }
}

/// The nodes of a target's bucket are nearer to the target than all other nodes.
pub proof fn law_own_bucket(t: Table, target: NodeId, j: int, k: int, l: int)
    requires
        t.wf(),
        t.has(t.index_of(target), j),
        t.has(k, l),
        k != t.index_of(target),
    ensures
        distance_less(
            target@,
            t.buckets[t.index_of(target)].nodes[j].id@,
            t.buckets[k].nodes[l].id@,
        ),
{
    let near = t.buckets[t.index_of(target)].nodes[j];
    let far = t.buckets[k].nodes[l];
    assert(t.node_ok(t.index_of(target), near));
    assert(t.node_ok(k, far));
    law_nearer_in_bucket(t.id, t.buckets.len() - 1, target, near.id, far.id);
}

impl Table {
    /// Whether a node with that identifier is in the table.
    pub open spec fn knows_id(self, id: NodeId) -> bool {
        exists|i: int, j: int| self.has(i, j) && (#[trigger] self.buckets[i].nodes[j]).id == id
    }

    /// Whether a node with that address is in the table.
    pub open spec fn knows_ip(self, ip: SocketAddr) -> bool {
        exists|i: int, j: int| self.has(i, j) && (#[trigger] self.buckets[i].nodes[j]).ip == ip
    }

    /// Whether a node with that identifier and that address is in the table.
    pub open spec fn knows(self, id: NodeId, ip: SocketAddr) -> bool {
        exists|i: int, j: int|
            self.has(i, j) && (#[trigger] self.buckets[i].nodes[j]).id == id
                && self.buckets[i].nodes[j].ip == ip
    }
}

/// A node is found where it is in the table, and nowhere else.
proof fn lemma_find(t: Table, target: NodeId)
    requires
        t.wf(),
    ensures
        0 <= t.index_of(target) < t.buckets.len(),
        match t.find(target) {
            Some(p) => t.has(t.index_of(target), p) && t.buckets[t.index_of(target)].nodes[p].id
                == target && t.knows_id(target),
            None => !t.knows_id(target),
        },
{
    lemma_shared_bits_bound(t.id, target);
    let b = t.index_of(target);
    lemma_node_index(t.buckets[b].nodes, target, 0);
    match t.find(target) {
        Some(p) => {
            assert(t.has(b, p));
            assert(t.buckets[b].nodes[p].id == target);
        },
        None => {
            assert forall|i: int, j: int| t.has(i, j) implies (
            #[trigger] t.buckets[i].nodes[j]).id != target by {
                assert(t.node_ok(i, t.buckets[i].nodes[j]));
            }
        },
    }
}

/// The first bucket is that of the identifiers that share at least as many bits with the own
/// one as there are other buckets; one that shares a bit less is in the second, and so on
/// to the last, in which are those that differ in the first bit.
pub proof fn law_bucket_index(id: NodeId, len: int, target: NodeId)
    requires
        1 <= len <= 160,
    ensures
        0 <= bucket_index(id, len, target) < len,
        bucket_index(id, len, target) == 0 <==> shared_bits(id, target) >= len - 1,
        bucket_index(id, len, target) > 0 ==> shared_bits(id, target) == len - 1 - bucket_index(
            id,
            len,
            target,
        ),
        bucket_index(id, len, id) == 0,
{
    lemma_shared_bits_bound(id, target);
    super::bucket::lemma_shared_bits(id, id);
}

/// A node can be put in, or is known, where the table holds it, or holds neither its
/// identifier nor its address and has room in the bucket for it. It does not match where one
/// of the two is held, but not both by one node. Else its bucket holds eight nodes; only the
/// first of fewer than 160 buckets is to be split, and only where the node's bucket then
/// holds six at most.
pub proof fn law_update_result(t: Table, target: NodeId, ip: SocketAddr)
    requires
        t.wf(),
    ensures
        ({
            let r = t.update_result(target, ip);
            let b = t.index_of(target);
            let s = t.split();
            &&& r is Ok <==> t.knows(target, ip) || (!t.knows_id(target) && !t.knows_ip(ip)
                && t.buckets[b].nodes.len() < 8)
            &&& r == Err::<(), UpdateNodeError>(UpdateNodeError::Mismatch) <==> (t.knows_id(target)
                || t.knows_ip(ip)) && !t.knows(target, ip)
            &&& r == Err::<(), UpdateNodeError>(UpdateNodeError::NeedSplit) <==> !t.knows_id(target)
                && !t.knows_ip(ip) && t.buckets[b].nodes.len() == 8 && b == 0 && t.buckets.len()
                < 160 && s.buckets[s.index_of(target)].nodes.len() < 7
        }),
{
    lemma_find(t, target);
    let b = t.index_of(target);
    assert(t.buckets[b].nodes.len() <= 8);
    assert(t.endpoints.contains(ip) == t.knows_ip(ip)) by {
        if t.knows_ip(ip) {
            let (i, j) = choose|i: int, j: int|
                t.has(i, j) && (#[trigger] t.buckets[i].nodes[j]).ip == ip;
            assert(t.node_ok(i, t.buckets[i].nodes[j]));
        }
    }
    if t.find(target) is Some {
        let p = t.find(target)->Some_0;
        assert forall|i: int, j: int|
            t.has(i, j) && (#[trigger] t.buckets[i].nodes[j]).id == target implies i == b && j
            == p by {
            if i != b || j != p {
                assert(differ(t.buckets[i].nodes[j], t.buckets[b].nodes[p]));
            }
        }
        if t.buckets[b].nodes[p].ip == ip {
            assert(t.knows(target, ip));
        }
    } else {
        assert(!t.knows(target, ip));
        if t.buckets.len() < 160 && b == 0 {
            lemma_split_sizes(t, t.buckets[0].nodes);
            lemma_shared_bits_bound(t.id, target);
            let s = t.split();
            let n = t.buckets.len() as int;
            assert(s.buckets.len() == n + 1);
            if shared_bits(t.id, target) >= n {
                assert(s.index_of(target) == 0);
                assert(s.buckets[0].nodes == t.buckets[0].nodes.filter(|node: Node| t.stays(node)));
            } else {
                assert(s.index_of(target) == 1);
                assert(s.buckets[1].nodes == t.buckets[0].nodes.filter(|node: Node| !t.stays(node)));
            }
        }
    }
}

/// A node that was put in, or that was known, was seen now; a new one is thought to be good.
/// All other nodes stay as they are, and nothing changes where the node is refused.
pub proof fn law_update_node(t: Table, target: NodeId, ip: SocketAddr, now: u128, node: Node)
    requires
        t.wf(),
    ensures
        ({
            let u = t.update(target, ip, now);
            &&& t.update_result(target, ip) is Err ==> u == t
            &&& node.id != target ==> (u.holds(node) <==> t.holds(node))
            &&& t.update_result(target, ip) is Ok && node.id == target && u.holds(node) ==> node.ip
                == ip && node.last_seen == now && (!t.knows_id(target) ==> node.status
                == super::bucket::NodeStatus::Good)
            &&& t.update_result(target, ip) is Ok ==> u.knows(target, ip)
            &&& u.buckets.len() == t.buckets.len() && u.id == t.id
        }),
{
    let u = t.update(target, ip, now);
    lemma_find(t, target);
    law_update_wf(t, target, ip, now);
    if t.update_result(target, ip) is Ok {
        let b = t.index_of(target);
        law_update_finds(t, target, ip, now);
        lemma_find(u, target);
        let q = u.find(target)->Some_0;
        assert(u.has(b, q));
        assert(u.buckets[b].nodes[q].id == target);
        assert(u.knows(target, ip));
        if node.id != target {
            if t.holds(node) {
                let (i, j) = choose|i: int, j: int|
                    t.has(i, j) && #[trigger] t.buckets[i].nodes[j] == node;
                assert(u.has(i, j) && u.buckets[i].nodes[j] == node);
            }
            if u.holds(node) {
                let (i, j) = choose|i: int, j: int|
                    u.has(i, j) && #[trigger] u.buckets[i].nodes[j] == node;
                assert(t.has(i, j) && t.buckets[i].nodes[j] == node);
            }
        } else if u.holds(node) {
            let (i, j) = choose|i: int, j: int|
                u.has(i, j) && #[trigger] u.buckets[i].nodes[j] == node;
            if i != b || j != q {
                assert(differ(u.buckets[i].nodes[j], u.buckets[b].nodes[q]));
            }
        }
    }
}

/// A node that is removed is no longer in the table, and all others are.
pub proof fn law_remove_node(t: Table, target: NodeId, node: Node)
    requires
        t.wf(),
    ensures
        t.remove(target).holds(node) <==> t.holds(node) && node.id != target,
{
    let u = t.remove(target);
    lemma_find(t, target);
    law_remove_wf(t, target);
    lemma_find(u, target);
    match t.find(target) {
        Some(p) => {
            let b = t.index_of(target);
            let last = t.buckets[b].nodes.len() - 1;
            if t.holds(node) && node.id != target {
                let (i, j) = choose|i: int, j: int|
                    t.has(i, j) && #[trigger] t.buckets[i].nodes[j] == node;
                if i == b && j == last {
                    assert(u.has(b, p) && u.buckets[b].nodes[p] == node);
                } else {
                    assert(u.has(i, j) && u.buckets[i].nodes[j] == node);
                }
            }
            if u.holds(node) {
                let (i, j) = choose|i: int, j: int|
                    u.has(i, j) && #[trigger] u.buckets[i].nodes[j] == node;
                if i == b && j == p {
                    assert(t.has(b, last) && t.buckets[b].nodes[last] == node);
                } else {
                    assert(t.has(i, j) && t.buckets[i].nodes[j] == node);
                }
                assert(node.id != target);
            }
        },
        None => {
            if t.holds(node) {
                let (i, j) = choose|i: int, j: int|
                    t.has(i, j) && #[trigger] t.buckets[i].nodes[j] == node;
                assert(t.buckets[i].nodes[j].id != target);
            }
        },
    }
}

/// The node to refresh is one of the bucket that was seen longest ago, none of that bucket was
/// seen before it, and the time is that since it was seen. There is none only where that
/// bucket is empty, or the time has gone back.
pub proof fn law_refresh(t: Table, i: int, now: u128, r: Option<(NodeId, SocketAddr, u128)>)
    requires
        t.wf(),
        t.is_oldest_bucket(i),
        t.refresh_result(i, now, r),
    ensures
        forall|k: int|
            0 <= k < t.buckets.len() ==> t.buckets[i].last_seen <= (
            #[trigger] t.buckets[k]).last_seen,
        match r {
            Some((id, ip, age)) => exists|node: Node| #[trigger]
                t.buckets[i].nodes.contains(node) && node.id == id && node.ip == ip
                    && node.last_seen + age == now && forall|k: int|
                    0 <= k < t.buckets[i].nodes.len() ==> node.last_seen <= (
                    #[trigger] t.buckets[i].nodes[k]).last_seen,
            None => forall|k: int|
                0 <= k < t.buckets[i].nodes.len() ==> now < (
                #[trigger] t.buckets[i].nodes[k]).last_seen,
        },
{
    let nodes = t.buckets[i].nodes;
    assert forall|k: int| 0 <= k < t.buckets.len() implies t.buckets[i].last_seen <= (
    #[trigger] t.buckets[k]).last_seen by {}
    if nodes.len() > 0 {
        let j = choose|j: int| #[trigger]
            is_oldest_node(nodes, j) && r == (if now < nodes[j].last_seen {
                None
            } else {
                Some((nodes[j].id, nodes[j].ip, (now - nodes[j].last_seen) as u128))
            });
        assert(nodes.contains(nodes[j]));
        assert forall|k: int| 0 <= k < nodes.len() implies nodes[j].last_seen <= (
        #[trigger] nodes[k]).last_seen by {}
    }
}

} // verus!
