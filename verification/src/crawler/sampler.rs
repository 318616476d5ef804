//! Sampling the hashes that nodes know.

use super::recent::{law_put_front, lemma_put_twice, lookup, put_front, RecentKeys};
use crate::bytes::{
    big_endian_bytes, lemma_big_endian_bytes_len, lemma_big_endian_round_trip, lemma_lex_total,
    lemma_lex_transitive, lex_compare, lex_less, push_u32, Order,
};
use crate::kad::addr::{add_addrs, insert_addrs, law_insert_addr, sorted_addrs, SocketAddr};
use crate::kad::compact::{compact_ip, encode_ip_to, law_compact_round_trip, lemma_compact_len};
use crate::kad::nodeid::{InfoHash, NodeId};
use crate::krpc::messages::SampleInfoHashesReply;
use vstd::prelude::*;

verus! {

/// How many nodes are sampled at once, and for how many hashes of one peers are asked for.
pub const MAX_SAMPLES: usize = 5;

/// How many nodes are kept.
pub const SAMPLED_LIMIT: usize = 100_000;

/// How many nanoseconds a second has.
pub const SECOND: u64 = 1_000_000_000;

/// After how many seconds a node is asked again that cannot be sampled.
pub const UNSUPPORTED_RETRY: u64 = 14_400;

/// After how many seconds a node is asked again that does not answer.
pub const FAILED_RETRY: u64 = 3_600;

/// The key under which a node is kept.
pub open spec fn addr_key(addr: SocketAddr) -> Seq<u8> {
    match addr {
        SocketAddr::V4 { .. } => compact_ip(addr),
        SocketAddr::V6 { flowinfo, scope_id, .. } => compact_ip(addr) + big_endian_bytes(
            flowinfo as nat,
            4,
        ) + big_endian_bytes(scope_id as nat, 4),
    }
}

/// The key under which a node is kept.
fn key_of(addr: &SocketAddr) -> (r: Vec<u8>)
    ensures
        r@ == addr_key(*addr),
{
    let mut key: Vec<u8> = Vec::new();
    encode_ip_to(&mut key, addr);
    if let SocketAddr::V6 { flowinfo, scope_id, .. } = *addr {
        push_u32(&mut key, flowinfo);
        push_u32(&mut key, scope_id);
    }
    assert(key@ =~= addr_key(*addr));
    key
}

/// Different nodes have different keys.
pub proof fn law_addr_key(a: SocketAddr, b: SocketAddr)
    ensures
        addr_key(a) == addr_key(b) ==> a == b,
{
    lemma_compact_len(a);
    lemma_compact_len(b);
    law_compact_round_trip(a);
    law_compact_round_trip(b);
    lemma_key_len(a);
    lemma_key_len(b);
    if addr_key(a) == addr_key(b) {
        match (a, b) {
            (SocketAddr::V4 { .. }, SocketAddr::V4 { .. }) => {},
            (
                SocketAddr::V6 { flowinfo: f, scope_id: s, .. },
                SocketAddr::V6 { flowinfo: g, scope_id: t, .. },
            ) => {
                assert(vstd::arithmetic::power::pow(256, 4) == 0x1_0000_0000) by {
                    reveal_with_fuel(vstd::arithmetic::power::pow, 5);
                }
                assert(addr_key(a).take(18) =~= compact_ip(a));
                assert(addr_key(b).take(18) =~= compact_ip(b));
                lemma_big_endian_bytes_len(f as nat, 4);
                lemma_big_endian_bytes_len(g as nat, 4);
                lemma_big_endian_bytes_len(s as nat, 4);
                lemma_big_endian_bytes_len(t as nat, 4);
                assert(addr_key(a).subrange(18, 22) =~= big_endian_bytes(f as nat, 4));
                assert(addr_key(b).subrange(18, 22) =~= big_endian_bytes(g as nat, 4));
                assert(addr_key(a).subrange(22, 26) =~= big_endian_bytes(s as nat, 4));
                assert(addr_key(b).subrange(22, 26) =~= big_endian_bytes(t as nat, 4));
                lemma_big_endian_round_trip(f as nat, 4);
                lemma_big_endian_round_trip(g as nat, 4);
                lemma_big_endian_round_trip(s as nat, 4);
                lemma_big_endian_round_trip(t as nat, 4);
            },
            _ => {},
        }
    }
}

/// How long the key of a node is.
proof fn lemma_key_len(a: SocketAddr)
    ensures
        addr_key(a).len() == (if a is V4 {
            6int
        } else {
            26
        }),
{
    lemma_compact_len(a);
    if let SocketAddr::V6 { flowinfo, scope_id, .. } = a {
        lemma_big_endian_bytes_len(flowinfo as nat, 4);
        lemma_big_endian_bytes_len(scope_id as nat, 4);
    }
}

/// Whether identifiers strictly increase.
pub open spec fn sorted_ids(s: Seq<NodeId>) -> bool {
    forall|i: int, j: int| 0 <= i < j < s.len() ==> lex_less(#[trigger] s[i]@, #[trigger] s[j]@)
}

/// Puts an identifier at its place among others, unless it is there.
fn add_id(ids: &mut Vec<NodeId>, id: NodeId)
    requires
        sorted_ids(old(ids)@),
    ensures
        sorted_ids(final(ids)@),
        forall|x: NodeId| #[trigger]
            final(ids)@.contains(x) <==> x == id || old(ids)@.contains(x),
        final(ids)@.len() <= old(ids)@.len() + 1,
{
    let mut p: usize = 0;
    let ghost s = ids@;
    while p < ids.len()
        invariant
            p <= ids@.len(),
            ids@ == s,
            s == old(ids)@,
            sorted_ids(s),
            forall|i: int| 0 <= i < p ==> lex_less(#[trigger] s[i]@, id@),
        ensures
            p < ids@.len() ==> lex_less(id@, s[p as int]@),
        decreases ids@.len() - p,
    {
        match lex_compare(id.as_slice(), ids[p].as_slice()) {
            Order::Equal => {
                proof {
                    assert(s[p as int].data =~= id.data);
                    assert(s[p as int] == id);
                }
                return;
            },
            Order::Less => {
                break;
            },
            Order::Greater => {
                proof {
                    lemma_lex_total(s[p as int]@, id@);
                }
                p += 1;
            },
        }
    }
    ids.insert(p, id);
    proof {
        let t = ids@;
        assert forall|i: int, j: int| 0 <= i < j < t.len() implies lex_less(
            #[trigger] t[i]@,
            #[trigger] t[j]@,
        ) by {
            let x = if i < p { i } else { i - 1 };
            let y = if j < p { j } else { j - 1 };
            if i != p && j != p {
                assert(t[i] == s[x] && t[j] == s[y]);
            } else if j == p {
                assert(t[i] == s[i]);
            } else {
                assert(t[j] == s[j - 1]);
                if j - 1 > p {
                    lemma_lex_transitive(id@, s[p as int]@, s[j - 1]@);
                }
            }
        }
        assert forall|x: NodeId| #[trigger] t.contains(x) <==> x == id || s.contains(x) by {
            if x == id {
                assert(t[p as int] == x);
            }
            if s.contains(x) {
                let i = choose|i: int| 0 <= i < s.len() && s[i] == x;
                let k = if i < p { i } else { i + 1 };
                assert(t[k] == x);
            }
            if t.contains(x) {
                let k = choose|k: int| 0 <= k < t.len() && t[k] == x;
                if k < p {
                    assert(s[k] == x);
                } else if k > p {
                    assert(s[k - 1] == x);
                }
            }
        }
    }
}

/// Identifiers in their order, each once.
pub fn sort_ids(ids: &Vec<NodeId>) -> (r: Vec<NodeId>)
    ensures
        sorted_ids(r@),
        forall|x: NodeId| #[trigger] r@.contains(x) <==> ids@.contains(x),
        r@.len() <= ids@.len(),
{
    let mut r: Vec<NodeId> = Vec::new();
    let mut i: usize = 0;
    while i < ids.len()
        invariant
            i <= ids@.len(),
            sorted_ids(r@),
            forall|x: NodeId| #[trigger] r@.contains(x) <==> ids@.take(i as int).contains(x),
            r@.len() <= i,
        decreases ids@.len() - i,
    {
        let ghost before = r@;
        add_id(&mut r, ids[i]);
        proof {
            let s = ids@.take(i as int);
            let t = ids@.take(i + 1);
            assert(t =~= s.push(ids@[i as int]));
            assert forall|x: NodeId| #[trigger] r@.contains(x) <==> t.contains(x) by {
                assert(before.contains(x) <==> s.contains(x));
                if s.contains(x) {
                    let k = choose|k: int| 0 <= k < s.len() && s[k] == x;
                    assert(t[k] == x);
                }
                if x == ids@[i as int] {
                    assert(t[i as int] == x);
                }
                if t.contains(x) && x != ids@[i as int] {
                    let k = choose|k: int| 0 <= k < t.len() && t[k] == x;
                    assert(s[k] == x);
                }
            }
        }
        i += 1;
    }
    assert(ids@.take(i as int) =~= ids@);
    r
}

/// Addresses that were put at their places are sorted, and they are those that were given.
proof fn lemma_insert_addrs(more: Seq<SocketAddr>)
    ensures
        sorted_addrs(insert_addrs(seq![], more)),
        forall|x: SocketAddr| #[trigger]
            insert_addrs(seq![], more).contains(x) <==> more.contains(x),
    decreases more.len(),
{
    if more.len() > 0 {
        let front = more.drop_last();
        lemma_insert_addrs(front);
        let t = insert_addrs(seq![], front);
        law_insert_addr(t, more.last());
        assert forall|x: SocketAddr| #[trigger]
            insert_addrs(seq![], more).contains(x) <==> more.contains(x) by {
            assert(t.contains(x) <==> front.contains(x));
            if front.contains(x) {
                let k = choose|k: int| 0 <= k < front.len() && front[k] == x;
                assert(more[k] == x);
            }
            if x == more.last() {
                assert(more[more.len() - 1] == x);
            }
            if more.contains(x) && x != more.last() {
                let k = choose|k: int| 0 <= k < more.len() && more[k] == x;
                assert(front[k] == x);
            }
        }
    }
}

/// Addresses in their order, each once.
pub fn sort_addrs(addrs: &Vec<SocketAddr>) -> (r: Vec<SocketAddr>)
    ensures
        sorted_addrs(r@),
        forall|x: SocketAddr| #[trigger] r@.contains(x) <==> addrs@.contains(x),
{
    let mut r: Vec<SocketAddr> = Vec::new();
    assert(r@ =~= seq![]);
    add_addrs(&mut r, addrs);
    proof {
        lemma_insert_addrs(addrs@);
    }
    r
}

/// What a node that was sampled said: its hashes, and after how many seconds it can be
/// sampled again.
#[derive(Debug)]
pub struct Sample {
    pub hashes: Vec<InfoHash>,
    pub duration: u64,
}

impl Sample {
    /// What a node said: its hashes in their order, each once.
    pub fn replied(reply: &SampleInfoHashesReply) -> (r: Sample)
        ensures
            r.duration == reply.interval,
            sorted_ids(r.hashes@),
            forall|x: InfoHash| #[trigger]
                r.hashes@.contains(x) <==> reply.info_hashes@.contains(x),
    {
        Sample { hashes: sort_ids(&reply.info_hashes), duration: reply.interval as u64 }
    }

    /// What to make of a node that gave no sample: it is asked again later, and earlier
    /// where it did not answer at all.
    pub fn failed(answers_ping: bool) -> (r: Sample)
        ensures
            r.hashes@ == Seq::<InfoHash>::empty(),
            r.duration == (if answers_ping {
                UNSUPPORTED_RETRY
            } else {
                FAILED_RETRY
            }),
    {
        Sample {
            hashes: Vec::new(),
            duration: if answers_ping {
                UNSUPPORTED_RETRY
            } else {
                FAILED_RETRY
            },
        }
    }

    /// The hashes for whose peers the node is asked: those without metadata, where it is
    /// said for each hash whether there is some.
    pub fn wanted(&self, has_metadata: &Vec<bool>) -> (r: Vec<InfoHash>)
        requires
            has_metadata@.len() == self.hashes@.len(),
        ensures
            r@ == wanted_ids(self.hashes@, has_metadata@),
    {
        let mut r: Vec<InfoHash> = Vec::new();
        let mut i: usize = 0;
        assert(self.hashes@.take(0) =~= seq![]);
        while i < self.hashes.len()
            invariant
                i <= self.hashes@.len(),
                has_metadata@.len() == self.hashes@.len(),
                r@ == wanted_ids(self.hashes@.take(i as int), has_metadata@.take(i as int)),
            decreases self.hashes@.len() - i,
        {
            assert(self.hashes@.take(i + 1).drop_last() =~= self.hashes@.take(i as int));
            assert(has_metadata@.take(i + 1).drop_last() =~= has_metadata@.take(i as int));
            if !has_metadata[i] {
                r.push(self.hashes[i]);
            }
            i += 1;
        }
        assert(self.hashes@.take(i as int) =~= self.hashes@);
        assert(has_metadata@.take(i as int) =~= has_metadata@);
        r
    }
}

/// The identifiers for which there is no metadata.
pub open spec fn wanted_ids(ids: Seq<NodeId>, has_metadata: Seq<bool>) -> Seq<NodeId>
    decreases ids.len(),
{
    if ids.len() == 0 {
        seq![]
    } else {
        let front = wanted_ids(ids.drop_last(), has_metadata.drop_last());
        if has_metadata.last() {
            front
        } else {
            front.push(ids.last())
        }
    }
}

/// The hashes with their peers, the peers of each in their order and each once.
pub fn collect_peers(results: &Vec<(InfoHash, Vec<SocketAddr>)>) -> (r: Vec<
    (InfoHash, Vec<SocketAddr>),
>)
    ensures
        r@.len() == results@.len(),
        forall|i: int|
            0 <= i < r@.len() ==> {
                &&& (#[trigger] r@[i]).0 == results@[i].0
                &&& sorted_addrs(r@[i].1@)
                &&& forall|x: SocketAddr| #[trigger]
                    r@[i].1@.contains(x) <==> results@[i].1@.contains(x)
            },
{
    let mut r: Vec<(InfoHash, Vec<SocketAddr>)> = Vec::new();
    let mut i: usize = 0;
    while i < results.len()
        invariant
            i <= results@.len(),
            r@.len() == i,
            forall|k: int|
                0 <= k < r@.len() ==> {
                    &&& (#[trigger] r@[k]).0 == results@[k].0
                    &&& sorted_addrs(r@[k].1@)
                    &&& forall|x: SocketAddr| #[trigger]
                        r@[k].1@.contains(x) <==> results@[k].1@.contains(x)
                },
        decreases results@.len() - i,
    {
        r.push((results[i].0, sort_addrs(&results[i].1)));
        i += 1;
    }
    r
}

/// The nodes that were sampled, with the times from which they can be sampled again, in
/// nanoseconds since the epoch; a node that is being sampled has no time.
pub struct Sampler {
    sampled: RecentKeys,
}

impl Sampler {
    /// The nodes that were sampled.
    pub closed spec fn sampled(&self) -> RecentKeys {
        self.sampled
    }

    /// Whether the parts are well-formed.
    pub open spec fn wf(&self) -> bool {
        self.sampled().wf()
    }

    /// No nodes.
    pub fn new() -> (r: Sampler)
        ensures
            r.wf(),
            r.sampled().entries() == Seq::<(Seq<u8>, Option<u64>)>::empty(),
            r.sampled().limit() == SAMPLED_LIMIT,
    {
        Sampler { sampled: RecentKeys::new(SAMPLED_LIMIT) }
    }

    /// Adds a node at a time; the result is whether it is to be sampled: not one that is
    /// being sampled, and not before its time.
    pub fn add_sample_node(&mut self, ip: &SocketAddr, now: u64) -> (r: bool)
        requires
            old(self).wf(),
        ensures
            final(self).wf(),
            final(self).sampled().limit() == old(self).sampled().limit(),
            r == (match lookup(old(self).sampled().entries(), addr_key(*ip)) {
                Some(Some(time)) => time <= now,
                Some(None) => false,
                None => true,
            }),
            r ==> lookup(final(self).sampled().entries(), addr_key(*ip)) == Some(None::<u64>),
            !r ==> lookup(final(self).sampled().entries(), addr_key(*ip)) == lookup(
                old(self).sampled().entries(),
                addr_key(*ip),
            ),
            final(self).sampled().entries() == put_front(
                old(self).sampled().entries(),
                old(self).sampled().limit(),
                addr_key(*ip),
                if r {
                    None
                } else {
                    lookup(old(self).sampled().entries(), addr_key(*ip))->Some_0
                },
            ),
    {
        let key = key_of(ip);
        let ghost entries = self.sampled.entries();
        let ghost limit = self.sampled.limit();
        match self.sampled.get(key.as_slice()) {
            Some(item) => {
                proof {
                    law_put_front(entries, limit, key@, item, key@);
                }
                match item {
                    Some(time) => {
                        if time > now {
                            return false;
                        }
                    },
                    None => {
                        return false;
                    },
                }
                proof {
                    law_put_front(
                        self.sampled.entries(),
                        limit,
                        key@,
                        None,
                        key@,
                    );
                    lemma_put_twice(entries, limit, key@, item, None);
                }
            },
            None => {
                proof {
                    law_put_front(entries, limit, key@, None, key@);
                }
            },
        }
        self.sampled.put(key.as_slice(), None);
        true
    }

    /// Takes note at a time that a node was sampled and can be sampled again after some
    /// seconds.
    pub fn finish(&mut self, ip: &SocketAddr, duration: u64, now: u64)
        requires
            old(self).wf(),
            now + duration * SECOND <= u64::MAX,
        ensures
            final(self).wf(),
            final(self).sampled().limit() == old(self).sampled().limit(),
            final(self).sampled().entries() == put_front(
                old(self).sampled().entries(),
                old(self).sampled().limit(),
                addr_key(*ip),
                Some((now + duration * SECOND) as u64),
            ),
            lookup(final(self).sampled().entries(), addr_key(*ip)) == Some(
                Some((now + duration * SECOND) as u64),
            ),
    {
        let time: u64 = now + duration * SECOND;
        proof {
            law_put_front(
                self.sampled.entries(),
                self.sampled.limit(),
                addr_key(*ip),
                Some(time),
                addr_key(*ip),
            );
        }
        self.sampled.put(key_of(ip).as_slice(), Some(time));
    }
}

/// The hashes without metadata are wanted, in their order, and no others.
pub proof fn law_wanted(ids: Seq<NodeId>, has_metadata: Seq<bool>, id: NodeId, has: bool)
    requires
        ids.len() == has_metadata.len(),
    ensures
        wanted_ids(Seq::empty(), Seq::empty()) == Seq::<NodeId>::empty(),
        wanted_ids(ids.push(id), has_metadata.push(has)) == (if has {
            wanted_ids(ids, has_metadata)
        } else {
            wanted_ids(ids, has_metadata).push(id)
        }),
        wanted_ids(ids, has_metadata).contains(id) <==> exists|i: int|
            0 <= i < ids.len() && #[trigger] ids[i] == id && !has_metadata[i],
    decreases ids.len(),
{
    assert(ids.push(id).drop_last() =~= ids);
    assert(has_metadata.push(has).drop_last() =~= has_metadata);
    if ids.len() > 0 {
        let (a, b) = (ids.drop_last(), has_metadata.drop_last());
        law_wanted(a, b, id, has);
        let front = wanted_ids(a, b);
        let all = wanted_ids(ids, has_metadata);
        if all.contains(id) {
            let k = choose|k: int| 0 <= k < all.len() && all[k] == id;
            if k < front.len() {
                assert(front[k] == id);
                let i = choose|i: int| 0 <= i < a.len() && #[trigger] a[i] == id && !b[i];
                assert(ids[i] == id && !has_metadata[i]);
            } else {
                assert(ids[ids.len() - 1] == id && !has_metadata[ids.len() - 1]);
            }
        }
        if exists|i: int| 0 <= i < ids.len() && #[trigger] ids[i] == id && !has_metadata[i] {
            let i = choose|i: int|
                0 <= i < ids.len() && #[trigger] ids[i] == id && !has_metadata[i];
            if i < a.len() {
                assert(a[i] == id && !b[i]);
                let k = choose|k: int| 0 <= k < front.len() && front[k] == id;
                assert(all[k] == id);
            } else {
                assert(all[all.len() - 1] == id);
            }
        }
    }
}

/// A node that does not answer is asked again after an hour, and one that cannot be sampled
/// after four; a second has a thousand million nanoseconds.
pub proof fn law_retry_times()
    ensures
        FAILED_RETRY == 60 * 60,
        UNSUPPORTED_RETRY == 4 * FAILED_RETRY,
        SECOND == 1000 * 1000 * 1000,
{
}

} // verus!
