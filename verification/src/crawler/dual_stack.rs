//! One value for IPv4 and one for IPv6.

use crate::kad::addr::SocketAddr;
use vstd::prelude::*;

verus! {

/// One value for IPv4 and one for IPv6, each of which is set once.
#[derive(Debug)]
pub struct DualStack<T> {
    v4: Option<T>,
    v6: Option<T>,
}

impl<T> DualStack<T> {
    /// The value for IPv4.
    pub closed spec fn spec_v4(&self) -> Option<T> {
        self.v4
    }

    /// The value for IPv6.
    pub closed spec fn spec_v6(&self) -> Option<T> {
        self.v6
    }

    /// No values.
    pub fn new() -> (r: DualStack<T>)
        ensures
            r.spec_v4() is None,
            r.spec_v6() is None,
    {
        DualStack { v4: None, v6: None }
    }

    /// The value for an address.
    pub fn select(&self, ip: &SocketAddr) -> (r: Option<&T>)
        ensures
            match r {
                Some(value) => Some(*value) == (if *ip is V4 {
                    self.spec_v4()
                } else {
                    self.spec_v6()
                }),
                None => if *ip is V4 {
                    self.spec_v4() is None
                } else {
                    self.spec_v6() is None
                },
            },
    {
        match *ip {
            SocketAddr::V4 { .. } => self.v4(),
            SocketAddr::V6 { .. } => self.v6(),
        }
    }

    /// The value for IPv4.
    pub fn v4(&self) -> (r: Option<&T>)
        ensures
            match r {
                Some(value) => self.spec_v4() == Some(*value),
                None => self.spec_v4() is None,
            },
    {
        match &self.v4 {
            Some(value) => Some(value),
            None => None,
        }
    }

    /// The value for IPv6.
    pub fn v6(&self) -> (r: Option<&T>)
        ensures
            match r {
                Some(value) => self.spec_v6() == Some(*value),
                None => self.spec_v6() is None,
            },
    {
        match &self.v6 {
            Some(value) => Some(value),
            None => None,
        }
    }

    /// Sets the value for IPv4, which must not be set yet.
    pub fn set_v4(&mut self, v4: T)
        requires
            old(self).spec_v4() is None,
        ensures
            final(self).spec_v4() == Some(v4),
            final(self).spec_v6() == old(self).spec_v6(),
    {
        self.v4 = Some(v4);
    }

    /// Sets the value for IPv6, which must not be set yet.
    pub fn set_v6(&mut self, v6: T)
        requires
            old(self).spec_v6() is None,
        ensures
            final(self).spec_v6() == Some(v6),
            final(self).spec_v4() == old(self).spec_v4(),
    {
        self.v6 = Some(v6);
    }

    /// The values, that for IPv4 first.
    pub fn all(&self) -> (r: Vec<&T>)
        ensures
            r@.len() == (if self.spec_v4() is Some {
                1int
            } else {
                0
            }) + (if self.spec_v6() is Some {
                1int
            } else {
                0
            }),
            self.spec_v4() is Some ==> Some(*r@[0]) == self.spec_v4(),
            self.spec_v6() is Some ==> Some(*r@.last()) == self.spec_v6(),
    {
        let mut r: Vec<&T> = Vec::new();
        if let Some(v4) = &self.v4 {
            r.push(v4);
        }
        if let Some(v6) = &self.v6 {
            r.push(v6);
        }
        r
    }

    /// Whether there is no value.
    pub fn is_empty(&self) -> (r: bool)
        ensures
            r == (self.spec_v4() is None && self.spec_v6() is None),
    {
        self.v4.is_none() && self.v6.is_none()
    }
}

impl<T: Clone> Clone for DualStack<T> {
    fn clone(&self) -> (r: DualStack<T>)
        ensures
            match (self.spec_v4(), r.spec_v4()) {
                (Some(a), Some(b)) => cloned(a, b),
                (None, None) => true,
                _ => false,
            },
            match (self.spec_v6(), r.spec_v6()) {
                (Some(a), Some(b)) => cloned(a, b),
                (None, None) => true,
                _ => false,
            },
    {
        let mut r = DualStack::new();
        if let Some(v4) = &self.v4 {
            r.set_v4(v4.clone());
        }
        if let Some(v6) = &self.v6 {
            r.set_v6(v6.clone());
        }
        r
    }
}

} // verus!
