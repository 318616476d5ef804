//! Network addresses.

use vstd::prelude::*;

verus! {

/// An IP address. The number is the big-endian one of the address's bytes.
#[derive(Clone, Copy, Debug, PartialEq, Eq, PartialOrd, Ord, Hash, Structural)]
pub enum IpAddr {
    V4(u32),
    V6(u128),
}

/// An IP address with a port.
#[derive(Clone, Copy, Debug, Eq, PartialOrd, Ord, Hash)]
#[allow(inconsistent_fields)]
pub enum SocketAddr {
    V4 { ip: u32, port: u16 },
    V6 { ip: u128, port: u16, flowinfo: u32, scope_id: u32 },
}

impl SocketAddr {
    /// The address and port, with no flow information and no scope.
    pub open spec fn spec_new(ip: IpAddr, port: u16) -> SocketAddr {
        match ip {
            IpAddr::V4(ip) => SocketAddr::V4 { ip, port },
            IpAddr::V6(ip) => SocketAddr::V6 { ip, port, flowinfo: 0, scope_id: 0 },
        }
    }

    /// The address and port, with no flow information and no scope.
    pub fn new(ip: IpAddr, port: u16) -> (r: SocketAddr)
        ensures
            r == SocketAddr::spec_new(ip, port),
    {
        match ip {
            IpAddr::V4(ip) => SocketAddr::V4 { ip, port },
            IpAddr::V6(ip) => SocketAddr::V6 { ip, port, flowinfo: 0, scope_id: 0 },
        }
    }

    /// The IP address.
    pub open spec fn spec_ip(self) -> IpAddr {
        match self {
            SocketAddr::V4 { ip, .. } => IpAddr::V4(ip),
            SocketAddr::V6 { ip, .. } => IpAddr::V6(ip),
        }
    }

    /// The IP address.
    pub fn ip(&self) -> (r: IpAddr)
        ensures
            r == self.spec_ip(),
    {
        match *self {
            SocketAddr::V4 { ip, .. } => IpAddr::V4(ip),
            SocketAddr::V6 { ip, .. } => IpAddr::V6(ip),
        }
    }

    /// The port.
    pub open spec fn spec_port(self) -> u16 {
        match self {
            SocketAddr::V4 { port, .. } => port,
            SocketAddr::V6 { port, .. } => port,
        }
    }

    /// The port.
    pub fn port(&self) -> (r: u16)
        ensures
            r == self.spec_port(),
    {
        match *self {
            SocketAddr::V4 { port, .. } => port,
            SocketAddr::V6 { port, .. } => port,
        }
    }

    /// The same address with another port.
    pub open spec fn spec_with_port(self, port: u16) -> SocketAddr {
        match self {
            SocketAddr::V4 { ip, .. } => SocketAddr::V4 { ip, port },
            SocketAddr::V6 { ip, flowinfo, scope_id, .. } => SocketAddr::V6 {
                ip,
                port,
                flowinfo,
                scope_id,
            },
        }
    }

    /// Whether this is an IPv4 address.
    pub fn is_ipv4(&self) -> (r: bool)
        ensures
            r == (*self is V4),
    {
        match *self {
            SocketAddr::V4 { .. } => true,
            SocketAddr::V6 { .. } => false,
        }
    }
}

/// Equality of addresses is that of their parts.
pub proof fn lemma_addr_eq()
    ensures
        vstd::laws_eq::obeys_concrete_eq::<SocketAddr>(),
{
    reveal(vstd::laws_eq::obeys_concrete_eq);
}

impl PartialEq for SocketAddr {
    fn eq(&self, other: &SocketAddr) -> (r: bool) {
        match (*self, *other) {
            (SocketAddr::V4 { ip: a, port: p }, SocketAddr::V4 { ip: b, port: q }) => a == b && p
                == q,
            (
                SocketAddr::V6 { ip: a, port: p, flowinfo: f, scope_id: s },
                SocketAddr::V6 { ip: b, port: q, flowinfo: g, scope_id: t },
            ) => a == b && p == q && f == g && s == t,
            _ => false,
        }
    }
}

impl vstd::std_specs::cmp::PartialEqSpecImpl for SocketAddr {
    open spec fn obeys_eq_spec() -> bool {
        true
    }

    open spec fn eq_spec(&self, other: &SocketAddr) -> bool {
        *self == *other
    }
}

/// The order of addresses: IPv4 before IPv6, then by the IP address, then by the port,
/// then by flow information and scope.
pub open spec fn addr_less(a: SocketAddr, b: SocketAddr) -> bool {
    match (a, b) {
        (SocketAddr::V4 { ip: x, port: p }, SocketAddr::V4 { ip: y, port: q }) => x < y || (x == y
            && p < q),
        (SocketAddr::V4 { .. }, SocketAddr::V6 { .. }) => true,
        (SocketAddr::V6 { .. }, SocketAddr::V4 { .. }) => false,
        (
            SocketAddr::V6 { ip: x, port: p, flowinfo: f, scope_id: s },
            SocketAddr::V6 { ip: y, port: q, flowinfo: g, scope_id: t },
        ) => x < y || (x == y && (p < q || (p == q && (f < g || (f == g && s < t))))),
    }
}

/// Whether `a` is before `b` in the order of addresses.
pub fn is_addr_less(a: &SocketAddr, b: &SocketAddr) -> (r: bool)
    ensures
        r == addr_less(*a, *b),
{
    match (*a, *b) {
        (SocketAddr::V4 { ip: x, port: p }, SocketAddr::V4 { ip: y, port: q }) => x < y || (x == y
            && p < q),
        (SocketAddr::V4 { .. }, SocketAddr::V6 { .. }) => true,
        (SocketAddr::V6 { .. }, SocketAddr::V4 { .. }) => false,
        (
            SocketAddr::V6 { ip: x, port: p, flowinfo: f, scope_id: s },
            SocketAddr::V6 { ip: y, port: q, flowinfo: g, scope_id: t },
        ) => x < y || (x == y && (p < q || (p == q && (f < g || (f == g && s < t))))),
    }
}

/// The sequence with an address put at its place, unless it is there.
pub open spec fn insert_addr(s: Seq<SocketAddr>, a: SocketAddr) -> Seq<SocketAddr>
    decreases s.len(),
{
    if s.len() == 0 {
        seq![a]
    } else if s[0] == a {
        s
    } else if addr_less(a, s[0]) {
        seq![a] + s
    } else {
        seq![s[0]] + insert_addr(s.skip(1), a)
    }
}

/// The sequence with addresses put at their places, one after the other.
pub open spec fn insert_addrs(s: Seq<SocketAddr>, more: Seq<SocketAddr>) -> Seq<SocketAddr>
    decreases more.len(),
{
    if more.len() == 0 {
        s
    } else {
        insert_addr(insert_addrs(s, more.drop_last()), more.last())
    }
}

/// Whether addresses strictly increase.
pub open spec fn sorted_addrs(s: Seq<SocketAddr>) -> bool {
    forall|i: int, j: int| 0 <= i < j < s.len() ==> addr_less(#[trigger] s[i], #[trigger] s[j])
}

proof fn lemma_insert_addr_at(s: Seq<SocketAddr>, a: SocketAddr, p: int)
    requires
        0 <= p <= s.len(),
        forall|i: int| 0 <= i < p ==> s[i] != a && !addr_less(a, #[trigger] s[i]),
        p < s.len() ==> s[p] == a || addr_less(a, s[p]),
    ensures
        insert_addr(s, a) == (if p < s.len() && s[p] == a {
            s
        } else {
            s.insert(p, a)
        }),
    decreases s.len(),
{
    if s.len() == 0 {
        assert(s.insert(p, a) =~= seq![a]);
    } else if p == 0 {
        assert(s.insert(0, a) =~= seq![a] + s);
    } else {
        assert(s[0] != a && !addr_less(a, s[0]));
        let t = s.skip(1);
        assert forall|i: int| 0 <= i < p - 1 implies t[i] != a && !addr_less(
            a,
            #[trigger] t[i],
        ) by {
            assert(t[i] == s[i + 1]);
        }
        lemma_insert_addr_at(t, a, p - 1);
        if p < s.len() && s[p] == a {
            assert(seq![s[0]] + t =~= s);
        } else {
            assert(seq![s[0]] + t.insert(p - 1, a) =~= s.insert(p, a));
        }
    }
}

/// Puts an address at its place among others, unless it is there.
pub fn add_addr(addrs: &mut Vec<SocketAddr>, a: SocketAddr)
    ensures
        final(addrs)@ == insert_addr(old(addrs)@, a),
{
    let mut p: usize = 0;
    while p < addrs.len() && !(addrs[p] == a) && !is_addr_less(&a, &addrs[p])
        invariant
            p <= addrs@.len(),
            *addrs == *old(addrs),
            forall|i: int| 0 <= i < p ==> addrs@[i] != a && !addr_less(a, #[trigger] addrs@[i]),
        decreases addrs@.len() - p,
    {
        p += 1;
    }
    proof {
        lemma_insert_addr_at(addrs@, a, p as int);
    }
    if p == addrs.len() || !(addrs[p] == a) {
        addrs.insert(p, a);
    }
}

/// Puts addresses at their places among others.
pub fn add_addrs(addrs: &mut Vec<SocketAddr>, more: &Vec<SocketAddr>)
    ensures
        final(addrs)@ == insert_addrs(old(addrs)@, more@),
{
    let mut i: usize = 0;
    while i < more.len()
        invariant
            i <= more@.len(),
            addrs@ == insert_addrs(old(addrs)@, more@.take(i as int)),
        decreases more@.len() - i,
    {
        assert(more@.take(i + 1).drop_last() =~= more@.take(i as int));
        add_addr(addrs, more[i]);
        i += 1;
    }
    assert(more@.take(i as int) =~= more@);
}

/// An address that is put in is there, what was there stays, and nothing else comes; the
/// addresses stay sorted, so that none is there twice.
pub proof fn law_insert_addr(s: Seq<SocketAddr>, a: SocketAddr)
    ensures
        forall|x: SocketAddr| #[trigger]
            insert_addr(s, a).contains(x) == (x == a || s.contains(x)),
        sorted_addrs(s) ==> sorted_addrs(insert_addr(s, a)),
    decreases s.len(),
{
    let r = insert_addr(s, a);
    if s.len() == 0 {
        assert(r[0] == a);
        assert forall|x: SocketAddr| #[trigger] r.contains(x) == (x == a || s.contains(x)) by {
            if x == a {
                assert(r[0] == x);
            }
        }
    } else if s[0] == a {
    } else if addr_less(a, s[0]) {
        assert forall|x: SocketAddr| #[trigger] r.contains(x) == (x == a || s.contains(x)) by {
            if x == a {
                assert(r[0] == x);
            }
            if s.contains(x) {
                let i = choose|i: int| 0 <= i < s.len() && s[i] == x;
                assert(r[i + 1] == x);
            }
            if r.contains(x) {
                let i = choose|i: int| 0 <= i < r.len() && r[i] == x;
                if i > 0 {
                    assert(s[i - 1] == x);
                }
            }
        }
        if sorted_addrs(s) {
            assert forall|i: int, j: int| 0 <= i < j < r.len() implies addr_less(
                #[trigger] r[i],
                #[trigger] r[j],
            ) by {
                assert(r[j] == s[j - 1]);
                if i > 0 {
                    assert(r[i] == s[i - 1]);
                } else if j > 1 {
                    assert(addr_less(s[0], s[j - 1]));
                }
            }
        }
    } else {
        let t = s.skip(1);
        let u = insert_addr(t, a);
        law_insert_addr(t, a);
        assert forall|x: SocketAddr| #[trigger] r.contains(x) == (x == a || s.contains(x)) by {
            if s.contains(x) {
                let i = choose|i: int| 0 <= i < s.len() && s[i] == x;
                if i == 0 {
                    assert(r[0] == x);
                } else {
                    assert(t[i - 1] == x);
                    assert(u.contains(x));
                    let k = choose|k: int| 0 <= k < u.len() && u[k] == x;
                    assert(r[k + 1] == x);
                }
            }
            if x == a {
                assert(u.contains(x));
                let k = choose|k: int| 0 <= k < u.len() && u[k] == x;
                assert(r[k + 1] == x);
            }
            if r.contains(x) {
                let i = choose|i: int| 0 <= i < r.len() && r[i] == x;
                if i == 0 {
                    assert(s[0] == x);
                } else {
                    assert(u[i - 1] == x);
                    assert(u.contains(x));
                    if t.contains(x) {
                        let k = choose|k: int| 0 <= k < t.len() && t[k] == x;
                        assert(s[k + 1] == x);
                    }
                }
            }
        }
        if sorted_addrs(s) {
            assert forall|i: int, j: int| 0 <= i < j < t.len() implies addr_less(
                #[trigger] t[i],
                #[trigger] t[j],
            ) by {
                assert(t[i] == s[i + 1] && t[j] == s[j + 1]);
            }
            assert forall|i: int, j: int| 0 <= i < j < r.len() implies addr_less(
                #[trigger] r[i],
                #[trigger] r[j],
            ) by {
                assert(r[j] == u[j - 1]);
                if i > 0 {
                    assert(r[i] == u[i - 1]);
                } else {
                    assert(u.contains(r[j]));
                    if t.contains(r[j]) {
                        let k = choose|k: int| 0 <= k < t.len() && t[k] == r[j];
                        assert(s[k + 1] == r[j]);
                        assert(addr_less(s[0], s[k + 1]));
                    }
                }
            }
        }
    }
}

/// Addresses that are put in are there, with those that were there and no others; the
/// addresses stay sorted, so that none is there twice.
pub proof fn law_insert_addrs(s: Seq<SocketAddr>, more: Seq<SocketAddr>)
    ensures
        forall|x: SocketAddr| #[trigger]
            insert_addrs(s, more).contains(x) == (s.contains(x) || more.contains(x)),
        sorted_addrs(s) ==> sorted_addrs(insert_addrs(s, more)),
    decreases more.len(),
{
    if more.len() > 0 {
        let front = more.drop_last();
        law_insert_addrs(s, front);
        law_insert_addr(insert_addrs(s, front), more.last());
        assert forall|x: SocketAddr| #[trigger]
            insert_addrs(s, more).contains(x) == (s.contains(x) || more.contains(x)) by {
            if front.contains(x) {
                let i = choose|i: int| 0 <= i < front.len() && front[i] == x;
                assert(more[i] == x);
            }
            if more.contains(x) && x != more.last() {
                let i = choose|i: int| 0 <= i < more.len() && more[i] == x;
                assert(front[i] == x);
            }
            assert(more[more.len() - 1] == more.last());
        }
    }
}

/// IPv4 addresses come before IPv6 addresses, a lower IP address of a family before a
/// higher one, and of one IP address a lower port before a higher one.
pub proof fn law_addr_order(x: u32, y: u32, v: u128, w: u128, p: u16, q: u16)
    ensures
        addr_less(
            SocketAddr::V4 { ip: x, port: p },
            SocketAddr::V6 { ip: v, port: q, flowinfo: 0, scope_id: 0 },
        ),
        x < y ==> addr_less(SocketAddr::V4 { ip: x, port: p }, SocketAddr::V4 { ip: y, port: q }),
        p < q ==> addr_less(SocketAddr::V4 { ip: x, port: p }, SocketAddr::V4 { ip: x, port: q }),
        v < w ==> addr_less(
            SocketAddr::V6 { ip: v, port: p, flowinfo: 0, scope_id: 0 },
            SocketAddr::V6 { ip: w, port: q, flowinfo: 0, scope_id: 0 },
        ),
        p < q ==> addr_less(
            SocketAddr::V6 { ip: v, port: p, flowinfo: 0, scope_id: 0 },
            SocketAddr::V6 { ip: v, port: q, flowinfo: 0, scope_id: 0 },
        ),
{
}

/// No address is before itself, and of two different addresses one is before the other but
/// not the other before it.
pub proof fn law_addr_less(a: SocketAddr, b: SocketAddr)
    ensures
        !addr_less(a, a),
        a != b ==> addr_less(a, b) != addr_less(b, a),
{
}

/// An address with another port has that port, and all else that it had.
pub proof fn law_with_port(a: SocketAddr, port: u16)
    ensures
        a.spec_with_port(port).spec_port() == port,
        a.spec_with_port(port).spec_ip() == a.spec_ip(),
        a.spec_with_port(port).spec_with_port(a.spec_port()) == a,
{
}

} // verus!
