//! Random numbers.

use crate::kad::addr::SocketAddr;
use vstd::prelude::*;

verus! {

/// A random byte, from `fastrand::u8` over its whole range. Nothing is claimed of it.
#[verifier::external_body]
pub(crate) fn random_u8() -> (r: u8) {
    fastrand::u8(..)
}

/// A random number, from `fastrand::u32` over its whole range. Nothing is claimed of it.
#[verifier::external_body]
pub(crate) fn random_u32() -> (r: u32) {
    fastrand::u32(..)
}

/// Random bytes, from `fastrand::fill`: as many as are asked for.
#[verifier::external_body]
pub(crate) fn random_bytes(len: usize) -> (r: Vec<u8>)
    ensures
        r@.len() == len,
{
    let mut bytes = vec![0u8; len];
    fastrand::fill(&mut bytes);
    bytes
}

/// A random number below `bound`, from `fastrand::usize`.
#[verifier::external_body]
pub(crate) fn random_below(bound: usize) -> (r: usize)
    requires
        bound > 0,
    ensures
        r < bound,
{
    fastrand::usize(0..bound)
}

/// Puts addresses into a random order, by `fastrand::shuffle`: the same addresses, each
/// as often as before.
#[verifier::external_body]
pub(crate) fn shuffle_addrs(addrs: &mut Vec<SocketAddr>)
    ensures
        final(addrs)@.to_multiset() == old(addrs)@.to_multiset(),
{
    fastrand::shuffle(addrs.as_mut_slice());
}

} // verus!
