//! Compact lists of nodes: for each its identifier, then its compact address.

use crate::bytes::{append_slice, sub_slice};
use crate::kad::addr::SocketAddr;
use crate::kad::compact::{
    compact_ip, encode_ip_to, law_compact_round_trip, lemma_compact_len, parse_ip, parsed_ip,
};
use crate::kad::nodeid::NodeId;
use vstd::prelude::*;

verus! {

/// The identifiers, by their bytes, and addresses of nodes.
pub open spec fn node_views(nodes: Seq<(NodeId, SocketAddr)>) -> Seq<(Seq<u8>, SocketAddr)> {
    Seq::new(nodes.len(), |i: int| (nodes[i].0@, nodes[i].1))
}

/// The compact form of a list of nodes.
pub open spec fn nodes_bytes(nodes: Seq<(Seq<u8>, SocketAddr)>) -> Seq<u8>
    decreases nodes.len(),
{
    if nodes.len() == 0 {
        seq![]
    } else {
        nodes_bytes(nodes.drop_last()) + nodes.last().0 + compact_ip(nodes.last().1)
    }
}

/// The node in the bytes from position `at` on, where each node has `size` bytes.
pub open spec fn node_at(s: Seq<u8>, size: int, i: int) -> (Seq<u8>, SocketAddr) {
    (
        s.subrange(size * i, size * i + 20),
        parsed_ip(s.subrange(size * i + 20, size * (i + 1)))->Some_0,
    )
}

/// The nodes that bytes stand for: nodes with IPv4 addresses where the length allows it,
/// else nodes with IPv6 addresses where the length allows it.
pub open spec fn parsed_nodes(s: Seq<u8>) -> Option<Seq<(Seq<u8>, SocketAddr)>> {
    if s.len() % 26 == 0 {
        Some(Seq::new(s.len() / 26, |i: int| node_at(s, 26, i)))
    } else if s.len() % 38 == 0 {
        Some(Seq::new(s.len() / 38, |i: int| node_at(s, 38, i)))
    } else {
        None
    }
}

/// Parses a compact list of nodes.
pub fn parse_nodes(slice: &[u8]) -> (r: Option<Vec<(NodeId, SocketAddr)>>)
    ensures
        match r {
            Some(nodes) => parsed_nodes(slice@) == Some(node_views(nodes@)),
            None => parsed_nodes(slice@) is None,
        },
{
    let size: usize = if slice.len() % 26 == 0 {
        26
    } else if slice.len() % 38 == 0 {
        38
    } else {
        return None;
    };
    let count: usize = slice.len() / size;
    let mut nodes: Vec<(NodeId, SocketAddr)> = Vec::new();
    let mut i: usize = 0;
    while i < count
        invariant
            i <= count,
            size == 26 || size == 38,
            count * size == slice@.len(),
            slice@.len() <= usize::MAX,
            nodes@.len() == i,
            forall|j: int|
                0 <= j < i ==> ((#[trigger] nodes@[j]).0@, nodes@[j].1) == node_at(
                    slice@,
                    size as int,
                    j,
                ),
        decreases count - i,
    {
        assert((i + 1) * size <= count * size) by (nonlinear_arith)
            requires
                i + 1 <= count,
                size >= 0,
        ;
        assert(size * i == i * size) by (nonlinear_arith);
        assert((i + 1) * size == i * size + size) by (nonlinear_arith);
        assert(size * (i + 1) == (i + 1) * size) by (nonlinear_arith);
        let start: usize = i * size;
        let id = NodeId::from_slice(sub_slice(slice, start, start + 20));
        let ip = parse_ip(sub_slice(slice, start + 20, start + size));
        match (id, ip) {
            (Some(id), Some(ip)) => {
                nodes.push((id, ip));
            },
            _ => {
                return None;
            },
        }
        i += 1;
    }
    proof {
        let all = parsed_nodes(slice@)->Some_0;
        assert(all.len() == count);
        assert forall|j: int| 0 <= j < all.len() implies all[j] == node_views(nodes@)[j] by {
            assert((nodes@[j].0@, nodes@[j].1) == node_at(slice@, size as int, j));
        }
        assert(all =~= node_views(nodes@));
    }
    Some(nodes)
}

/// Appends the compact form of a list of nodes.
pub fn encode_nodes_to(out: &mut Vec<u8>, nodes: &Vec<(NodeId, SocketAddr)>)
    ensures
        final(out)@ == old(out)@ + nodes_bytes(node_views(nodes@)),
{
    let ghost all = node_views(nodes@);
    let mut i: usize = 0;
    assert(all.take(0) =~= seq![]);
    while i < nodes.len()
        invariant
            i <= nodes@.len(),
            all == node_views(nodes@),
            out@ == old(out)@ + nodes_bytes(all.take(i as int)),
        decreases nodes@.len() - i,
    {
        let ghost before = out@;
        append_slice(out, nodes[i].0.as_slice());
        let ip: SocketAddr = nodes[i].1;
        encode_ip_to(out, &ip);
        assert(all.take(i + 1).drop_last() =~= all.take(i as int));
        assert(out@ =~= old(out)@ + nodes_bytes(all.take(i + 1)));
        i += 1;
    }
    assert(all.take(i as int) =~= all);
}

/// Whether every node has an identifier of full length and an address of the family that
/// `v4` says, with no flow information and no scope.
pub open spec fn uniform(nodes: Seq<(Seq<u8>, SocketAddr)>, v4: bool) -> bool {
    forall|i: int|
        0 <= i < nodes.len() ==> (#[trigger] nodes[i]).0.len() == 20 && plain(nodes[i].1)
            && nodes[i].1 is V4 == v4
}

/// Whether an address has no flow information and no scope.
pub open spec fn plain(addr: SocketAddr) -> bool {
    match addr {
        SocketAddr::V4 { .. } => true,
        SocketAddr::V6 { flowinfo, scope_id, .. } => flowinfo == 0 && scope_id == 0,
    }
}

/// Where the bytes of each node stand.
proof fn lemma_nodes_bytes(nodes: Seq<(Seq<u8>, SocketAddr)>, v4: bool, size: int)
    requires
        uniform(nodes, v4),
        size == (if v4 {
            26int
        } else {
            38
        }),
    ensures
        nodes_bytes(nodes).len() == size * nodes.len(),
        forall|i: int|
            0 <= i < nodes.len() ==> #[trigger] node_at(nodes_bytes(nodes), size, i) == nodes[i],
    decreases nodes.len(),
{
    if nodes.len() > 0 {
        let t = nodes.drop_last();
        let n = t.len() as int;
        assert forall|i: int| 0 <= i < t.len() implies (#[trigger] t[i]).0.len() == 20 && plain(
            t[i].1,
        ) && t[i].1 is V4 == v4 by {
            assert(t[i] == nodes[i]);
        }
        lemma_nodes_bytes(t, v4, size);
        let a = nodes_bytes(t);
        let s = nodes_bytes(nodes);
        let last = nodes[n];
        assert(last == nodes.last());
        lemma_compact_len(last.1);
        law_compact_round_trip(last.1);
        assert(size * (n + 1) == size * n + size) by (nonlinear_arith);
        assert forall|i: int| 0 <= i < nodes.len() implies #[trigger] node_at(s, size, i)
            == nodes[i] by {
            if i < n {
                assert(size * (i + 1) <= size * n) by (nonlinear_arith)
                    requires
                        i + 1 <= n,
                        size > 0,
                ;
                assert(0 <= size * i) by (nonlinear_arith)
                    requires
                        0 <= i,
                        size > 0,
                ;
                assert(size * (i + 1) == size * i + size) by (nonlinear_arith);
                assert(s.subrange(size * i, size * i + 20) =~= a.subrange(size * i, size * i + 20));
                assert(s.subrange(size * i + 20, size * (i + 1)) =~= a.subrange(
                    size * i + 20,
                    size * (i + 1),
                ));
                assert(node_at(a, size, i) == t[i]);
            } else {
                assert(s.subrange(size * n, size * n + 20) =~= last.0);
                assert(s.subrange(size * n + 20, size * (n + 1)) =~= compact_ip(last.1));
            }
        }
    }
}

/// Parsing the compact form of nodes of one family gives the nodes back. (Thirteen IPv6
/// nodes are as long as nineteen IPv4 nodes and would be read as those.)
pub proof fn law_nodes_round_trip(nodes: Seq<(Seq<u8>, SocketAddr)>, v4: bool)
    requires
        uniform(nodes, v4),
        v4 || nodes.len() % 13 != 0,
    ensures
        parsed_nodes(nodes_bytes(nodes)) == Some(nodes),
{
    let size = if v4 {
        26int
    } else {
        38
    };
    lemma_nodes_bytes(nodes, v4, size);
    let s = nodes_bytes(nodes);
    let n = nodes.len() as int;
    if v4 {
        assert(s.len() == 26 * n);
    } else {
        assert(s.len() == 38 * n);
        assert(s.len() % 26 != 0);
    }
    let r = parsed_nodes(s)->Some_0;
    assert forall|i: int| 0 <= i < nodes.len() implies r[i] == nodes[i] by {
        assert(node_at(s, size, i) == nodes[i]);
    }
    assert(r =~= nodes);
}

/// The compact form of a list of nodes of one family holds for each, one behind the other,
/// its identifier and then its compact address.
pub proof fn law_nodes_bytes(nodes: Seq<(Seq<u8>, SocketAddr)>, v4: bool, i: int)
    requires
        uniform(nodes, v4),
        0 <= i < nodes.len(),
    ensures
        ({
            let size: int = if v4 {
                26
            } else {
                38
            };
            let s = nodes_bytes(nodes);
            &&& s.len() == size * nodes.len()
            &&& 0 <= size * i <= size * i + size <= s.len()
            &&& s.subrange(size * i, size * i + 20) == nodes[i].0
            &&& s.subrange(size * i + 20, size * i + size) == compact_ip(nodes[i].1)
        }),
    decreases nodes.len(),
{
    let size: int = if v4 {
        26
    } else {
        38
    };
    lemma_nodes_bytes(nodes, v4, size);
    lemma_compact_len(nodes[i].1);
    let front = nodes.drop_last();
    let s = nodes_bytes(nodes);
    let f = nodes_bytes(front);
    assert forall|k: int| 0 <= k < front.len() implies (#[trigger] front[k]).0.len() == 20 && plain(
        front[k].1,
    ) && front[k].1 is V4 == v4 by {
        assert(front[k] == nodes[k]);
    }
    lemma_nodes_bytes(front, v4, size);
    assert(size * i + size <= size * nodes.len()) by (nonlinear_arith)
        requires
            i + 1 <= nodes.len(),
            size > 0,
    ;
    assert(size * i >= 0) by (nonlinear_arith)
        requires
            i >= 0,
            size > 0,
    ;
    if i < front.len() {
        law_nodes_bytes(front, v4, i);
        assert(s.subrange(size * i, size * i + 20) =~= f.subrange(size * i, size * i + 20));
        assert(s.subrange(size * i + 20, size * i + size) =~= f.subrange(
            size * i + 20,
            size * i + size,
        ));
    } else {
        assert(f.len() == size * i);
        assert(s.subrange(size * i, size * i + 20) =~= nodes[i].0);
        assert(s.subrange(size * i + 20, size * i + size) =~= compact_ip(nodes[i].1));
    }
}

} // verus!
