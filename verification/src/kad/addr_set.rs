//! Sets of network addresses.

use super::addr::SocketAddr;
use vstd::prelude::*;

verus! {

/// A set of addresses.
#[derive(Debug)]
pub struct AddrSet {
    addrs: Vec<SocketAddr>,
}

impl View for AddrSet {
    type V = Set<SocketAddr>;

    closed spec fn view(&self) -> Set<SocketAddr> {
        self.addrs@.to_set()
    }
}

impl AddrSet {
    /// Whether no address is held twice.
    pub closed spec fn wf(&self) -> bool {
        self.addrs@.no_duplicates()
    }

    /// The empty set.
    pub fn new() -> (r: AddrSet)
        ensures
            r.wf(),
            r@ == Set::<SocketAddr>::empty(),
    {
        let r = AddrSet { addrs: Vec::new() };
        assert(r@ =~= Set::<SocketAddr>::empty());
        r
    }

    /// How many addresses there are.
    pub fn len(&self) -> (r: usize)
        requires
            self.wf(),
        ensures
            r == self@.len(),
            self@.finite(),
    {
        proof {
            self.addrs@.unique_seq_to_set();
            vstd::seq_lib::seq_to_set_is_finite(self.addrs@);
        }
        self.addrs.len()
    }

    /// The position of an address.
    fn position(&self, addr: &SocketAddr) -> (r: Option<usize>)
        ensures
            match r {
                Some(i) => i < self.addrs@.len() && self.addrs@[i as int] == *addr,
                None => !self@.contains(*addr),
            },
    {
        let mut i: usize = 0;
        while i < self.addrs.len()
            invariant
                i <= self.addrs@.len(),
                forall|j: int| 0 <= j < i ==> self.addrs@[j] != *addr,
            decreases self.addrs@.len() - i,
        {
            if self.addrs[i] == *addr {
                return Some(i);
            }
            i += 1;
        }
        None
    }

    /// Whether an address is in the set.
    pub fn contains(&self, addr: &SocketAddr) -> (r: bool)
        ensures
            r == self@.contains(*addr),
    {
        self.position(addr).is_some()
    }

    /// Puts an address in.
    pub fn insert(&mut self, addr: SocketAddr)
        ensures
            old(self).wf() ==> final(self).wf(),
            final(self)@ == old(self)@.insert(addr),
    {
        if !self.contains(&addr) {
            self.addrs.push(addr);
            proof {
                let s = old(self).addrs@;
                assert forall|a: SocketAddr| #[trigger] self@.contains(a) == old(self)@.insert(
                    addr,
                ).contains(a) by {
                    if s.contains(a) {
                        let i = choose|i: int| 0 <= i < s.len() && s[i] == a;
                        assert(s.push(addr)[i] == a);
                    } else if a == addr {
                        assert(s.push(addr)[s.len() as int] == a);
                    }
                }
            }
        }
        assert(self@ =~= old(self)@.insert(addr));
    }

    /// Takes an address out.
    pub fn remove(&mut self, addr: &SocketAddr)
        requires
            old(self).wf(),
        ensures
            final(self).wf(),
            final(self)@ == old(self)@.remove(*addr),
    {
        match self.position(addr) {
            Some(i) => {
                let ghost s = self.addrs@;
                self.addrs.swap_remove(i);
                proof {
                    let t = self.addrs@;
                    assert forall|a: SocketAddr| #[trigger] self@.contains(a) == old(self)@.remove(
                        *addr,
                    ).contains(a) by {
                        if t.contains(a) {
                            let k = choose|k: int| 0 <= k < t.len() && t[k] == a;
                            assert(s.contains(t[k]));
                        } else if s.contains(a) && a != *addr {
                            let k = choose|k: int| 0 <= k < s.len() && s[k] == a;
                            let m = if k == s.len() - 1 {
                                i as int
                            } else {
                                k
                            };
                            assert(t[m] == a);
                        }
                    }
                }
            },
            None => {},
        }
        assert(self@ =~= old(self)@.remove(*addr));
    }
}

} // verus!
