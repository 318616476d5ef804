//! Sorting nodes by their distance to a target.

use super::addr::SocketAddr;
use super::nodeid::{distance_less, xor, NodeId};
use crate::bytes::{
    lemma_lex_irreflexive, lemma_lex_transitive, lex_compare, lex_less, Order,
};
use vstd::prelude::*;

verus! {

/// Whether `a` is nearer to `target` than `b`.
pub fn is_closer(target: &NodeId, a: &NodeId, b: &NodeId) -> (r: bool)
    ensures
        r == distance_less(target@, a@, b@),
{
    let da = *a ^ *target;
    let db = *b ^ *target;
    proof {
        lemma_lex_irreflexive(da@);
    }
    matches!(lex_compare(da.as_slice(), db.as_slice()), Order::Less)
}

/// The sequence with `x` put in front of the first node that is farther from `target`.
pub open spec fn insert_by_distance(
    target: Seq<u8>,
    s: Seq<(NodeId, SocketAddr)>,
    x: (NodeId, SocketAddr),
) -> Seq<(NodeId, SocketAddr)>
    decreases s.len(),
{
    if s.len() == 0 {
        seq![x]
    } else if distance_less(target, x.0@, s[0].0@) {
        seq![x] + s
    } else {
        seq![s[0]] + insert_by_distance(target, s.skip(1), x)
    }
}

/// The nodes from the nearest to the farthest; nodes at the same distance stay in order.
pub open spec fn sort_by_distance(
    target: Seq<u8>,
    s: Seq<(NodeId, SocketAddr)>,
) -> Seq<(NodeId, SocketAddr)>
    decreases s.len(),
{
    if s.len() == 0 {
        seq![]
    } else {
        insert_by_distance(target, sort_by_distance(target, s.drop_last()), s.last())
    }
}

/// The first `n` of a sequence, or all where there are not as many.
pub open spec fn first_n<A>(s: Seq<A>, n: int) -> Seq<A> {
    if s.len() > n {
        s.take(n)
    } else {
        s
    }
}

/// Whether no node stands behind one that is farther.
pub open spec fn sorted_by_distance(target: Seq<u8>, s: Seq<(NodeId, SocketAddr)>) -> bool {
    forall|i: int, j: int|
        0 <= i < j < s.len() ==> !distance_less(
            target,
            (#[trigger] s[j]).0@,
            (#[trigger] s[i]).0@,
        )
}

/// What `insert_by_distance` gives where the place of the node is known.
proof fn lemma_insert_at(
    target: Seq<u8>,
    s: Seq<(NodeId, SocketAddr)>,
    x: (NodeId, SocketAddr),
    p: int,
)
    requires
        0 <= p <= s.len(),
        forall|i: int| 0 <= i < p ==> !distance_less(target, x.0@, (#[trigger] s[i]).0@),
        p < s.len() ==> distance_less(target, x.0@, s[p].0@),
    ensures
        insert_by_distance(target, s, x) == s.insert(p, x),
    decreases s.len(),
{
    if s.len() == 0 {
        assert(s.insert(p, x) =~= seq![x]);
    } else if p == 0 {
        assert(s.insert(p, x) =~= seq![x] + s);
    } else {
        let t = s.skip(1);
        assert(!distance_less(target, x.0@, s[0].0@));
        assert forall|i: int| 0 <= i < p - 1 implies !distance_less(
            target,
            x.0@,
            (#[trigger] t[i]).0@,
        ) by {
            assert(t[i] == s[i + 1]);
        }
        lemma_insert_at(target, t, x, p - 1);
        assert(s.insert(p, x) =~= seq![s[0]] + t.insert(p - 1, x));
    }
}

/// Sorts nodes by their distance to `target`.
pub fn sort_nodes(target: &NodeId, nodes: &Vec<(NodeId, SocketAddr)>) -> (r: Vec<
    (NodeId, SocketAddr),
>)
    ensures
        r@ == sort_by_distance(target@, nodes@),
{
    let mut out: Vec<(NodeId, SocketAddr)> = Vec::new();
    let mut i: usize = 0;
    assert(nodes@.take(0) =~= seq![]);
    while i < nodes.len()
        invariant
            i <= nodes@.len(),
            out@ == sort_by_distance(target@, nodes@.take(i as int)),
        decreases nodes@.len() - i,
    {
        let x: (NodeId, SocketAddr) = nodes[i];
        let mut p: usize = 0;
        while p < out.len() && !is_closer(target, &x.0, &out[p].0)
            invariant
                p <= out@.len(),
                forall|k: int|
                    0 <= k < p ==> !distance_less(target@, x.0@, (#[trigger] out@[k]).0@),
            decreases out@.len() - p,
        {
            p += 1;
        }
        proof {
            lemma_insert_at(target@, out@, x, p as int);
            assert(nodes@.take(i + 1).drop_last() =~= nodes@.take(i as int));
        }
        out.insert(p, x);
        i += 1;
    }
    assert(nodes@.take(i as int) =~= nodes@);
    out
}

/// The places of an inserted node and of the others.
proof fn lemma_insert_elements(
    target: Seq<u8>,
    s: Seq<(NodeId, SocketAddr)>,
    x: (NodeId, SocketAddr),
)
    ensures
        insert_by_distance(target, s, x).len() == s.len() + 1,
        insert_by_distance(target, s, x).to_multiset() == s.to_multiset().insert(x),
    decreases s.len(),
{
    broadcast use vstd::seq_lib::group_to_multiset_ensures;

    if s.len() == 0 {
        assert(seq![x] =~= s.push(x));
    } else if distance_less(target, x.0@, s[0].0@) {
        vstd::seq_lib::lemma_multiset_commutative(seq![x], s);
        assert(seq![x] =~= Seq::<(NodeId, SocketAddr)>::empty().push(x));
        assert((seq![x] + s).to_multiset() =~= s.to_multiset().insert(x));
    } else {
        let t = s.skip(1);
        let h = seq![s[0]];
        lemma_insert_elements(target, t, x);
        vstd::seq_lib::lemma_multiset_commutative(h, insert_by_distance(target, t, x));
        vstd::seq_lib::lemma_multiset_commutative(h, t);
        assert(s =~= h + t);
        assert((h + insert_by_distance(target, t, x)).to_multiset()
            =~= s.to_multiset().insert(x));
    }
}

/// Sorting gives the same nodes.
pub proof fn law_sort_same_nodes(target: Seq<u8>, s: Seq<(NodeId, SocketAddr)>)
    ensures
        sort_by_distance(target, s).len() == s.len(),
        sort_by_distance(target, s).to_multiset() == s.to_multiset(),
    decreases s.len(),
{
    broadcast use vstd::seq_lib::group_to_multiset_ensures;

    if s.len() > 0 {
        let t = s.drop_last();
        law_sort_same_nodes(target, t);
        lemma_insert_elements(target, sort_by_distance(target, t), s.last());
        assert(s =~= t.push(s.last()));
    } else {
        assert(s =~= seq![]);
    }
}

proof fn lemma_insert_sorted(
    target: Seq<u8>,
    s: Seq<(NodeId, SocketAddr)>,
    x: (NodeId, SocketAddr),
    p: int,
)
    requires
        sorted_by_distance(target, s),
        0 <= p <= s.len(),
        forall|i: int| 0 <= i < p ==> !distance_less(target, x.0@, (#[trigger] s[i]).0@),
        p < s.len() ==> distance_less(target, x.0@, s[p].0@),
    ensures
        sorted_by_distance(target, s.insert(p, x)),
{
    let r = s.insert(p, x);
    assert forall|i: int, j: int| 0 <= i < j < r.len() implies !distance_less(
        target,
        (#[trigger] r[j]).0@,
        (#[trigger] r[i]).0@,
    ) by {
        if j == p {
            assert(r[i] == s[i]);
        } else if i == p {
            assert(r[j] == s[j - 1]);
            let (dx, dp, dj) = (
                xor(x.0@, target),
                xor(s[p].0@, target),
                xor(s[j - 1].0@, target),
            );
            if lex_less(dj, dx) {
                lemma_lex_transitive(dj, dx, dp);
                if p < j - 1 {
                    assert(!distance_less(target, s[j - 1].0@, s[p].0@));
                } else {
                    lemma_lex_irreflexive(dp);
                }
            }
        } else {
            let a = if i < p { i } else { i - 1 };
            let b = if j < p { j } else { j - 1 };
            assert(r[i] == s[a]);
            assert(r[j] == s[b]);
        }
    }
}

/// The first place of `s` whose node is farther than `x`, or the end.
proof fn lemma_place(target: Seq<u8>, s: Seq<(NodeId, SocketAddr)>, x: (NodeId, SocketAddr)) -> (p:
    int)
    ensures
        0 <= p <= s.len(),
        forall|i: int| 0 <= i < p ==> !distance_less(target, x.0@, (#[trigger] s[i]).0@),
        p < s.len() ==> distance_less(target, x.0@, s[p].0@),
    decreases s.len(),
{
    if s.len() == 0 || distance_less(target, x.0@, s[0].0@) {
        0
    } else {
        let t = s.skip(1);
        let q = lemma_place(target, t, x);
        assert forall|i: int| 0 <= i < q + 1 implies !distance_less(
            target,
            x.0@,
            (#[trigger] s[i]).0@,
        ) by {
            if i > 0 {
                assert(s[i] == t[i - 1]);
            }
        }
        q + 1
    }
}

/// Sorting leaves no node behind one that is farther.
pub proof fn law_sort_sorted(target: Seq<u8>, s: Seq<(NodeId, SocketAddr)>)
    ensures
        sorted_by_distance(target, sort_by_distance(target, s)),
    decreases s.len(),
{
    if s.len() > 0 {
        let t = sort_by_distance(target, s.drop_last());
        law_sort_sorted(target, s.drop_last());
        let p = lemma_place(target, t, s.last());
        lemma_insert_at(target, t, s.last(), p);
        lemma_insert_sorted(target, t, s.last(), p);
    }
}

/// The first nodes by distance: as many as there are or as are wanted, all of them among the
/// nodes, from the nearest to the farthest, and no node that is left out is nearer than one
/// of them.
pub proof fn law_first_nearest(target: Seq<u8>, s: Seq<(NodeId, SocketAddr)>, n: int)
    requires
        0 <= n,
    ensures
        ({
            let r = first_n(sort_by_distance(target, s), n);
            &&& r.len() == (if s.len() < n {
                s.len() as int
            } else {
                n
            })
            &&& sorted_by_distance(target, r)
            &&& forall|x: int| 0 <= x < r.len() ==> s.contains(#[trigger] r[x])
            &&& forall|p: (NodeId, SocketAddr), x: int|
                s.contains(p) && !r.contains(p) && 0 <= x < r.len() ==> !(#[trigger] distance_less(
                    target,
                    p.0@,
                    r[x].0@,
                ))
        }),
{
    broadcast use vstd::seq_lib::group_to_multiset_ensures;

    let all = sort_by_distance(target, s);
    let r = first_n(all, n);
    law_sort_same_nodes(target, s);
    law_sort_sorted(target, s);
    assert forall|i: int, j: int| 0 <= i < j < r.len() implies !distance_less(
        target,
        (#[trigger] r[j]).0@,
        (#[trigger] r[i]).0@,
    ) by {
        assert(r[i] == all[i] && r[j] == all[j]);
    }
    assert forall|x: int| 0 <= x < r.len() implies s.contains(#[trigger] r[x]) by {
        assert(r[x] == all[x]);
        assert(all.contains(all[x]));
        assert(all.to_multiset().contains(all[x]));
        assert(s.to_multiset().contains(all[x]));
    }
    assert forall|p: (NodeId, SocketAddr), x: int|
        s.contains(p) && !r.contains(p) && 0 <= x < r.len() implies !(#[trigger] distance_less(
        target,
        p.0@,
        r[x].0@,
    )) by {
        assert(s.to_multiset().contains(p));
        assert(all.to_multiset().contains(p));
        assert(all.contains(p));
        let y = choose|y: int| 0 <= y < all.len() && all[y] == p;
        assert(r[x] == all[x]);
        if y < r.len() {
            assert(r[y] == p);
        }
        assert(!distance_less(target, all[y].0@, all[x].0@));
    }
}

/// Nodes that are sorted already stay in their order, those at the same distance as well.
pub proof fn law_sort_stable(target: Seq<u8>, s: Seq<(NodeId, SocketAddr)>)
    requires
        sorted_by_distance(target, s),
    ensures
        sort_by_distance(target, s) == s,
    decreases s.len(),
{
    if s.len() > 0 {
        let front = s.drop_last();
        assert forall|i: int, j: int| 0 <= i < j < front.len() implies !distance_less(
            target,
            (#[trigger] front[j]).0@,
            (#[trigger] front[i]).0@,
        ) by {
            assert(front[i] == s[i] && front[j] == s[j]);
        }
        law_sort_stable(target, front);
        assert forall|i: int| 0 <= i < front.len() implies !distance_less(
            target,
            s.last().0@,
            (#[trigger] front[i]).0@,
        ) by {
            assert(front[i] == s[i]);
        }
        lemma_insert_at(target, front, s.last(), front.len() as int);
        assert(front.insert(front.len() as int, s.last()) =~= s);
    } else {
        assert(sort_by_distance(target, s) =~= s);
    }
}

/// Each next node goes behind those that are not farther, and before those that are.
pub proof fn law_sort_next(
    target: Seq<u8>,
    s: Seq<(NodeId, SocketAddr)>,
    x: (NodeId, SocketAddr),
) -> (p: int)
    ensures
        0 <= p <= s.len(),
        sort_by_distance(target, s.push(x)) == sort_by_distance(target, s).insert(p, x),
        forall|i: int|
            0 <= i < p ==> !distance_less(
                target,
                x.0@,
                (#[trigger] sort_by_distance(target, s)[i]).0@,
            ),
        p < s.len() ==> distance_less(target, x.0@, sort_by_distance(target, s)[p].0@),
{
    law_sort_same_nodes(target, s);
    let sorted = sort_by_distance(target, s);
    let p = lemma_place(target, sorted, x);
    assert(s.push(x).drop_last() =~= s);
    lemma_insert_at(target, sorted, x, p);
    p
}

} // verus!
