//! The nodes and buckets that routing tables are made of.

use super::addr::SocketAddr;
use super::distance::{
    first_n, law_first_nearest, sort_by_distance, sort_nodes, sorted_by_distance,
};
use super::nodeid::{
    bit_at, byte_bit, distance_less, law_xor_bit, leading_zeros, lemma_first_bit, xor, NodeId,
};
use crate::bytes::lex_less;
use crate::clock::system_time;
use vstd::prelude::*;

verus! {

/// How many nodes a bucket can hold.
pub const KBUCKET_SIZE: usize = 8;

/// How many buckets a table can have.
pub const MAX_BUCKETS: usize = 160;

/// What is thought of a node.
#[derive(Debug, Clone, Copy, PartialEq, Eq, Structural)]
pub enum NodeStatus {
    Good,
    Questionable,
    Bad,
}

/// A node of a routing table. Times are nanoseconds since the Unix epoch.
#[derive(Debug, Clone, Copy)]
pub struct Node {
    pub id: NodeId,
    pub ip: SocketAddr,
    pub last_seen: u128,
    pub status: NodeStatus,
}

/// A bucket of a routing table.
#[derive(Debug)]
pub struct KBucket {
    pub nodes: Vec<Node>,
    pub last_seen: u128,
}

/// What a bucket holds.
#[verifier::ext_equal]
pub struct Bucket {
    pub nodes: Seq<Node>,
    pub last_seen: u128,
}

impl View for KBucket {
    type V = Bucket;

    open spec fn view(&self) -> Bucket {
        Bucket { nodes: self.nodes@, last_seen: self.last_seen }
    }
}

/// What the buckets of a table hold.
pub open spec fn bucket_views(buckets: Seq<KBucket>) -> Seq<Bucket> {
    Seq::new(buckets.len(), |i: int| buckets[i]@)
}

/// The node of that id and address, seen at `now`.
pub open spec fn fresh_node(id: NodeId, ip: SocketAddr, now: u128) -> Node {
    Node { id, ip, last_seen: now, status: NodeStatus::Good }
}

/// The identifiers and addresses of nodes.
pub open spec fn node_pairs(nodes: Seq<Node>) -> Seq<(NodeId, SocketAddr)> {
    Seq::new(nodes.len(), |i: int| (nodes[i].id, nodes[i].ip))
}

/// The nodes of the first `n` buckets, bucket by bucket.
pub open spec fn all_nodes(buckets: Seq<Bucket>, n: int) -> Seq<(NodeId, SocketAddr)>
    decreases n,
{
    if n <= 0 {
        seq![]
    } else {
        all_nodes(buckets, n - 1) + node_pairs(buckets[n - 1].nodes)
    }
}

/// Whether a node of the buckets has that id and address.
pub open spec fn in_buckets(buckets: Seq<Bucket>, pair: (NodeId, SocketAddr)) -> bool {
    exists|i: int, j: int|
        0 <= i < buckets.len() && 0 <= j < buckets[i].nodes.len()
            && (#[trigger] buckets[i].nodes[j]).id == pair.0 && buckets[i].nodes[j].ip == pair.1
}

/// The nodes of the buckets that are nearest to a target, from the nearest on, not more
/// than a bucket holds.
pub open spec fn nearest(buckets: Seq<Bucket>, target: NodeId) -> Seq<(NodeId, SocketAddr)> {
    first_n(
        sort_by_distance(target@, all_nodes(buckets, buckets.len() as int)),
        KBUCKET_SIZE as int,
    )
}

/// The position of the first node with that id, from position `i` on.
pub open spec fn node_index_from(nodes: Seq<Node>, id: NodeId, i: int) -> Option<int>
    decreases nodes.len() - i,
{
    if i < 0 || i >= nodes.len() {
        None
    } else if nodes[i].id == id {
        Some(i)
    } else {
        node_index_from(nodes, id, i + 1)
    }
}

/// The position of the first node with that id.
pub open spec fn node_index(nodes: Seq<Node>, id: NodeId) -> Option<int> {
    node_index_from(nodes, id, 0)
}

/// The position of the first node with that id and address, from position `i` on.
pub open spec fn pair_index_from(nodes: Seq<Node>, id: NodeId, ip: SocketAddr, i: int) -> Option<
    int,
>
    decreases nodes.len() - i,
{
    if i < 0 || i >= nodes.len() {
        None
    } else if nodes[i].id == id && nodes[i].ip == ip {
        Some(i)
    } else {
        pair_index_from(nodes, id, ip, i + 1)
    }
}

/// The position of the first node with that id and address.
pub open spec fn pair_index(nodes: Seq<Node>, id: NodeId, ip: SocketAddr) -> Option<int> {
    pair_index_from(nodes, id, ip, 0)
}

/// How many leading bits two identifiers share.
pub open spec fn shared_bits(a: NodeId, b: NodeId) -> int {
    leading_zeros(xor(a@, b@))
}

/// How many leading bits two identifiers share, up to a number that is enough.
pub open spec fn shared_up_to(a: NodeId, b: NodeId, enough: int) -> int {
    if shared_bits(a, b) < enough {
        shared_bits(a, b)
    } else {
        enough
    }
}

impl Node {
    /// A node that is seen now.
    pub fn new(id: NodeId, ip: SocketAddr) -> (r: Node)
        ensures
            exists|now: u128| r == fresh_node(id, ip, now),
    {
        let now: u128 = system_time();
        let r = Node::new_at(id, ip, now);
        assert(r == fresh_node(id, ip, now));
        r
    }

    /// A node that is seen at `now`.
    pub fn new_at(id: NodeId, ip: SocketAddr, now: u128) -> (r: Node)
        ensures
            r == fresh_node(id, ip, now),
    {
        Node { id, ip, last_seen: now, status: NodeStatus::Good }
    }
}

impl KBucket {
    /// An empty bucket, made now.
    pub fn new() -> (r: KBucket)
        ensures
            r.nodes@ == Seq::<Node>::empty(),
    {
        let now: u128 = system_time();
        KBucket::new_at(now)
    }

    /// An empty bucket, made at `now`.
    pub fn new_at(now: u128) -> (r: KBucket)
        ensures
            r@.nodes == Seq::<Node>::empty(),
            r@.last_seen == now,
    {
        KBucket { nodes: Vec::new(), last_seen: now }
    }

    /// The position of the first node with that id and address.
    pub fn index_of_pair(&self, id: &NodeId, ip: &SocketAddr) -> (r: Option<usize>)
        ensures
            match r {
                Some(i) => pair_index(self@.nodes, *id, *ip) == Some(i as int) && i
                    < self.nodes@.len() && self.nodes@[i as int].id == *id
                    && self.nodes@[i as int].ip == *ip,
                None => pair_index(self@.nodes, *id, *ip) is None,
            },
    {
        let mut i: usize = 0;
        while i < self.nodes.len()
            invariant
                i <= self.nodes@.len(),
                pair_index(self@.nodes, *id, *ip) == pair_index_from(
                    self.nodes@,
                    *id,
                    *ip,
                    i as int,
                ),
            decreases self.nodes@.len() - i,
        {
            if self.nodes[i].id == *id && self.nodes[i].ip == *ip {
                return Some(i);
            }
            i += 1;
        }
        None
    }

    /// The position of the first node with that id.
    pub fn index_of(&self, id: &NodeId) -> (r: Option<usize>)
        ensures
            match r {
                Some(i) => node_index(self@.nodes, *id) == Some(i as int) && i < self.nodes@.len()
                    && self.nodes@[i as int].id == *id,
                None => node_index(self@.nodes, *id) is None,
            },
    {
        let mut i: usize = 0;
        while i < self.nodes.len()
            invariant
                i <= self.nodes@.len(),
                node_index(self@.nodes, *id) == node_index_from(self.nodes@, *id, i as int),
            decreases self.nodes@.len() - i,
        {
            if self.nodes[i].id == *id {
                return Some(i);
            }
            i += 1;
        }
        None
    }
}

/// How many leading bits two identifiers share.
pub fn count_shared_bits(a: &NodeId, b: &NodeId) -> (r: usize)
    ensures
        r == shared_bits(*a, *b),
        r <= 160,
{
    (*a ^ *b).leading_zeros() as usize
}

/// A found position is that of a node with the id and the address.
pub proof fn lemma_pair_index(nodes: Seq<Node>, id: NodeId, ip: SocketAddr, i: int)
    requires
        0 <= i <= nodes.len(),
    ensures
        match pair_index_from(nodes, id, ip, i) {
            Some(p) => i <= p < nodes.len() && nodes[p].id == id && nodes[p].ip == ip,
            None => forall|j: int|
                i <= j < nodes.len() ==> (#[trigger] nodes[j]).id != id || nodes[j].ip != ip,
        },
    decreases nodes.len() - i,
{
    if i < nodes.len() && !(nodes[i].id == id && nodes[i].ip == ip) {
        lemma_pair_index(nodes, id, ip, i + 1);
    }
}

/// A found position is that of a node with the id, and no earlier one is.
pub proof fn lemma_node_index(nodes: Seq<Node>, id: NodeId, i: int)
    requires
        0 <= i <= nodes.len(),
    ensures
        match node_index_from(nodes, id, i) {
            Some(p) => i <= p < nodes.len() && nodes[p].id == id && forall|j: int|
                i <= j < p ==> (#[trigger] nodes[j]).id != id,
            None => forall|j: int| i <= j < nodes.len() ==> (#[trigger] nodes[j]).id != id,
        },
    decreases nodes.len() - i,
{
    if i < nodes.len() && nodes[i].id != id {
        lemma_node_index(nodes, id, i + 1);
    }
}

/// Identifiers share all their bits only where they are equal.
pub proof fn lemma_shared_bits_bound(a: NodeId, b: NodeId)
    ensures
        0 <= shared_bits(a, b) <= 160,
{
    super::nodeid::lemma_first_bit(xor(a@, b@), 0);
}

/// Two identifiers agree in the bits that they share, and differ in the next.
pub proof fn lemma_shared_bits(a: NodeId, b: NodeId)
    ensures
        0 <= shared_bits(a, b) <= 160,
        forall|j: int| 0 <= j < shared_bits(a, b) ==> #[trigger] bit_at(a@, j) == bit_at(b@, j),
        shared_bits(a, b) < 160 ==> bit_at(a@, shared_bits(a, b)) != bit_at(
            b@,
            shared_bits(a, b),
        ),
{
    let x = xor(a@, b@);
    let n = shared_bits(a, b);
    lemma_first_bit(x, 0);
    assert forall|j: int| 0 <= j < n implies #[trigger] bit_at(a@, j) == bit_at(b@, j) by {
        law_xor_bit(a@, b@, j);
        assert(!bit_at(x, j));
    }
    if n < 160 {
        law_xor_bit(a@, b@, n);
    }
}

/// A byte whose first bits are clear, up to one that is set in another byte, is smaller.
proof fn lemma_byte_less(x: u8, y: u8, p: int)
    requires
        0 <= p < 8,
        forall|j: int| 0 <= j <= p ==> !#[trigger] byte_bit(x, j),
        byte_bit(y, p),
    ensures
        x < y,
{
    let q = (7 - p) as u8;
    assert(p >= 0 ==> !byte_bit(x, 0));
    assert(p >= 1 ==> !byte_bit(x, 1));
    assert(p >= 2 ==> !byte_bit(x, 2));
    assert(p >= 3 ==> !byte_bit(x, 3));
    assert(p >= 4 ==> !byte_bit(x, 4));
    assert(p >= 5 ==> !byte_bit(x, 5));
    assert(p >= 6 ==> !byte_bit(x, 6));
    assert(p >= 7 ==> !byte_bit(x, 7));
    assert(x < y) by (bit_vector)
        requires
            q <= 7,
            q <= 7 ==> x & (1u8 << 7u8) == 0,
            q <= 6 ==> x & (1u8 << 6u8) == 0,
            q <= 5 ==> x & (1u8 << 5u8) == 0,
            q <= 4 ==> x & (1u8 << 4u8) == 0,
            q <= 3 ==> x & (1u8 << 3u8) == 0,
            q <= 2 ==> x & (1u8 << 2u8) == 0,
            q <= 1 ==> x & (1u8 << 1u8) == 0,
            q <= 0 ==> x & (1u8 << 0u8) == 0,
            y & (1u8 << q) != 0,
    ;
}

/// Bytes whose first bits are clear, up to one that is set in others, come before them.
proof fn lemma_lex_by_bit(x: Seq<u8>, y: Seq<u8>, p: int)
    requires
        x.len() == y.len(),
        0 <= p < 8 * x.len(),
        forall|j: int| 0 <= j <= p ==> !#[trigger] bit_at(x, j),
        bit_at(y, p),
    ensures
        lex_less(x, y),
    decreases p,
{
    if p < 8 {
        assert forall|j: int| 0 <= j <= p implies !#[trigger] byte_bit(x[0], j) by {
            assert(!bit_at(x, j));
        }
        lemma_byte_less(x[0], y[0], p);
    } else {
        let b = x[0];
        assert(!bit_at(x, 0) && !bit_at(x, 1) && !bit_at(x, 2) && !bit_at(x, 3) && !bit_at(x, 4)
            && !bit_at(x, 5) && !bit_at(x, 6) && !bit_at(x, 7));
        assert(b == 0) by (bit_vector)
            requires
                b & (1u8 << 7u8) == 0,
                b & (1u8 << 6u8) == 0,
                b & (1u8 << 5u8) == 0,
                b & (1u8 << 4u8) == 0,
                b & (1u8 << 3u8) == 0,
                b & (1u8 << 2u8) == 0,
                b & (1u8 << 1u8) == 0,
                b & (1u8 << 0u8) == 0,
        ;
        if y[0] == 0 {
            let (s, t) = (x.skip(1), y.skip(1));
            assert forall|j: int| 0 <= j <= p - 8 implies !#[trigger] bit_at(s, j) by {
                assert(!bit_at(x, j + 8));
            }
            lemma_lex_by_bit(s, t, p - 8);
        }
    }
}

/// The more leading bits an identifier shares with a target, the nearer it is.
pub proof fn law_nearer_by_bits(target: NodeId, a: NodeId, b: NodeId)
    requires
        shared_bits(a, target) > shared_bits(b, target),
    ensures
        distance_less(target@, a@, b@),
{
    let (x, y) = (xor(a@, target@), xor(b@, target@));
    lemma_first_bit(x, 0);
    lemma_first_bit(y, 0);
    lemma_lex_by_bit(x, y, shared_bits(b, target));
}

/// An identifier that shares as many leading bits with the own one as a target does, up to
/// a number that is enough, is nearer to the target than one that does not.
pub proof fn law_nearer_in_bucket(id: NodeId, enough: int, target: NodeId, a: NodeId, b: NodeId)
    requires
        0 <= enough <= 160,
        shared_up_to(id, target, enough) == shared_up_to(id, a, enough),
        shared_up_to(id, target, enough) != shared_up_to(id, b, enough),
    ensures
        distance_less(target@, a@, b@),
{
    let n = shared_up_to(id, target, enough);
    let m = shared_up_to(id, b, enough);
    lemma_shared_bits(id, target);
    lemma_shared_bits(id, a);
    lemma_shared_bits(id, b);
    lemma_shared_bits(a, target);
    lemma_shared_bits(b, target);
    let near = shared_bits(a, target);
    let far = shared_bits(b, target);
    if n < enough {
        if near <= n {
            if near < n {
                assert(bit_at(id@, near) == bit_at(a@, near));
                assert(bit_at(id@, near) == bit_at(target@, near));
            }
        }
        let k = if m < n { m } else { n };
        if far > n {
            assert(bit_at(b@, k) == bit_at(target@, k));
            if m < n {
                assert(bit_at(id@, m) == bit_at(target@, m));
            } else {
                assert(bit_at(id@, n) == bit_at(b@, n));
            }
        }
    } else {
        if near < enough {
            assert(bit_at(id@, near) == bit_at(a@, near));
            assert(bit_at(id@, near) == bit_at(target@, near));
        }
        if far >= enough {
            assert(bit_at(b@, m) == bit_at(target@, m));
            assert(bit_at(id@, m) == bit_at(target@, m));
        }
    }
    law_nearer_by_bits(target, a, b);
}

/// All nodes, bucket by bucket.
pub fn collect_nodes(buckets: &Vec<KBucket>) -> (r: Vec<(NodeId, SocketAddr)>)
    ensures
        r@ == all_nodes(bucket_views(buckets@), buckets@.len() as int),
{
    let mut all: Vec<(NodeId, SocketAddr)> = Vec::new();
    let mut b: usize = 0;
    while b < buckets.len()
        invariant
            b <= buckets@.len(),
            all@ == all_nodes(bucket_views(buckets@), b as int),
        decreases buckets@.len() - b,
    {
        let ghost nodes = buckets@[b as int].nodes@;
        let ghost before = all@;
        let mut j: usize = 0;
        while j < buckets[b].nodes.len()
            invariant
                b < buckets@.len(),
                nodes == buckets@[b as int].nodes@,
                j <= nodes.len(),
                all@ == before + node_pairs(nodes).take(j as int),
            decreases nodes.len() - j,
        {
            let node: Node = buckets[b].nodes[j];
            all.push((node.id, node.ip));
            assert(node_pairs(nodes).take(j + 1) =~= node_pairs(nodes).take(j as int).push(
                (node.id, node.ip),
            ));
            j += 1;
        }
        assert(node_pairs(nodes).take(j as int) =~= node_pairs(nodes));
        b += 1;
    }
    all
}

/// The nodes that are nearest to a target, from the nearest on, not more than a bucket holds.
pub fn find_nearest(buckets: &Vec<KBucket>, target: NodeId) -> (r: Vec<(NodeId, SocketAddr)>)
    ensures
        r@ == nearest(bucket_views(buckets@), target),
{
    let all = collect_nodes(buckets);
    let mut sorted: Vec<(NodeId, SocketAddr)> = sort_nodes(&target, &all);
    sorted.truncate(KBUCKET_SIZE);
    sorted
}

/// The place of the node at position `x` among the nodes of the first `n` buckets.
pub proof fn lemma_all_nodes_place(buckets: Seq<Bucket>, n: int, x: int) -> (r: (int, int))
    requires
        0 <= n <= buckets.len(),
        0 <= x < all_nodes(buckets, n).len(),
    ensures
        0 <= r.0 < n,
        0 <= r.1 < buckets[r.0].nodes.len(),
        all_nodes(buckets, n)[x] == (buckets[r.0].nodes[r.1].id, buckets[r.0].nodes[r.1].ip),
        r.1 == x - all_nodes(buckets, r.0).len(),
        all_nodes(buckets, r.0).len() <= x,
    decreases n,
{
    let before = all_nodes(buckets, n - 1).len();
    if x < before {
        lemma_all_nodes_place(buckets, n - 1, x)
    } else {
        (n - 1, x - before)
    }
}

/// The position of a node among the nodes of the first `n` buckets.
pub proof fn lemma_all_nodes_has(buckets: Seq<Bucket>, n: int, i: int, j: int)
    requires
        0 <= i < n <= buckets.len(),
        0 <= j < buckets[i].nodes.len(),
    ensures
        all_nodes(buckets, i).len() + j < all_nodes(buckets, n).len(),
        all_nodes(buckets, n)[all_nodes(buckets, i).len() + j] == (
            buckets[i].nodes[j].id,
            buckets[i].nodes[j].ip,
        ),
    decreases n,
{
    if i < n - 1 {
        lemma_all_nodes_has(buckets, n - 1, i, j);
    }
}

/// The nearest nodes are nodes of the buckets, as many as there are but not more than a
/// bucket holds, from the nearest to the farthest, and no node that is left out is nearer
/// than one of them.
pub proof fn law_nearest(buckets: Seq<Bucket>, target: NodeId)
    ensures
        ({
            let count = all_nodes(buckets, buckets.len() as int).len();
            nearest(buckets, target).len() == (if count < KBUCKET_SIZE {
                count as int
            } else {
                KBUCKET_SIZE as int
            })
        }),
        sorted_by_distance(target@, nearest(buckets, target)),
        forall|x: int|
            0 <= x < nearest(buckets, target).len() ==> in_buckets(
                buckets,
                #[trigger] nearest(buckets, target)[x],
            ),
        forall|p: (NodeId, SocketAddr), x: int|
            in_buckets(buckets, p) && !nearest(buckets, target).contains(p) && 0 <= x < nearest(
                buckets,
                target,
            ).len() ==> !(#[trigger] distance_less(
                target@,
                p.0@,
                nearest(buckets, target)[x].0@,
            )),
{
    let n = buckets.len() as int;
    let all = all_nodes(buckets, n);
    let r = nearest(buckets, target);
    law_first_nearest(target@, all, KBUCKET_SIZE as int);
    assert forall|x: int| 0 <= x < r.len() implies in_buckets(buckets, #[trigger] r[x]) by {
        assert(all.contains(r[x]));
        let y = choose|y: int| 0 <= y < all.len() && all[y] == r[x];
        let (i, j) = lemma_all_nodes_place(buckets, n, y);
        assert(buckets[i].nodes[j].id == r[x].0);
    }
    assert forall|p: (NodeId, SocketAddr), x: int|
        in_buckets(buckets, p) && !r.contains(p) && 0 <= x < r.len() implies !(
    #[trigger] distance_less(target@, p.0@, r[x].0@)) by {
        let (i, j) = choose|i: int, j: int|
            0 <= i < buckets.len() && 0 <= j < buckets[i].nodes.len()
                && (#[trigger] buckets[i].nodes[j]).id == p.0 && buckets[i].nodes[j].ip == p.1;
        lemma_all_nodes_has(buckets, n, i, j);
        assert(all[all_nodes(buckets, i).len() + j] == p);
        assert(all.contains(p));
    }
}

} // verus!
