//! Compact addresses: the bytes of the IP address, then those of the port.

use super::addr::{IpAddr, SocketAddr};
use crate::bytes::{
    big_endian, big_endian_bytes, lemma_big_endian_bytes_len, lemma_big_endian_bytes_of,
    lemma_big_endian_round_trip, push_u128, push_u16, push_u32, read_u128, read_u16, read_u32,
};
use vstd::prelude::*;

verus! {

/// The compact form of an address with its port.
pub open spec fn compact_ip(addr: SocketAddr) -> Seq<u8> {
    match addr {
        SocketAddr::V4 { ip, port } => big_endian_bytes(ip as nat, 4) + big_endian_bytes(
            port as nat,
            2,
        ),
        SocketAddr::V6 { ip, port, .. } => big_endian_bytes(ip as nat, 16) + big_endian_bytes(
            port as nat,
            2,
        ),
    }
}

/// The address with a port that compact bytes stand for.
pub open spec fn parsed_ip(s: Seq<u8>) -> Option<SocketAddr> {
    if s.len() == 6 {
        Some(
            SocketAddr::V4 {
                ip: big_endian(s.subrange(0, 4)) as u32,
                port: big_endian(s.subrange(4, 6)) as u16,
            },
        )
    } else if s.len() == 18 {
        Some(
            SocketAddr::V6 {
                ip: big_endian(s.subrange(0, 16)) as u128,
                port: big_endian(s.subrange(16, 18)) as u16,
                flowinfo: 0,
                scope_id: 0,
            },
        )
    } else {
        None
    }
}

/// The compact form of an address without a port.
pub open spec fn compact_your_ip(ip: IpAddr) -> Seq<u8> {
    match ip {
        IpAddr::V4(ip) => big_endian_bytes(ip as nat, 4),
        IpAddr::V6(ip) => big_endian_bytes(ip as nat, 16),
    }
}

/// The address without a port that compact bytes stand for.
pub open spec fn parsed_your_ip(s: Seq<u8>) -> Option<IpAddr> {
    if s.len() == 4 {
        Some(IpAddr::V4(big_endian(s) as u32))
    } else if s.len() == 16 {
        Some(IpAddr::V6(big_endian(s) as u128))
    } else {
        None
    }
}

/// Parses a compact address with a port, 6 bytes long or 18.
pub fn parse_ip(slice: &[u8]) -> (r: Option<SocketAddr>)
    ensures
        r == parsed_ip(slice@),
{
    if slice.len() == 6 {
        Some(SocketAddr::V4 { ip: read_u32(slice, 0), port: read_u16(slice, 4) })
    } else if slice.len() == 18 {
        Some(
            SocketAddr::V6 {
                ip: read_u128(slice, 0),
                port: read_u16(slice, 16),
                flowinfo: 0,
                scope_id: 0,
            },
        )
    } else {
        None
    }
}

/// Appends the compact form of an address; the result is its length.
pub fn encode_ip_to(out: &mut Vec<u8>, ip: &SocketAddr) -> (r: usize)
    ensures
        final(out)@ == old(out)@ + compact_ip(*ip),
        r == compact_ip(*ip).len(),
{
    proof {
        lemma_compact_len(*ip);
    }
    match *ip {
        SocketAddr::V4 { ip: addr, port } => {
            push_u32(out, addr);
            push_u16(out, port);
            assert(out@ =~= old(out)@ + compact_ip(*ip));
            6
        },
        SocketAddr::V6 { ip: addr, port, .. } => {
            push_u128(out, addr);
            push_u16(out, port);
            assert(out@ =~= old(out)@ + compact_ip(*ip));
            18
        },
    }
}

/// Parses a compact address without a port, 4 bytes long or 16.
pub fn parse_your_ip(slice: &[u8]) -> (r: Option<IpAddr>)
    ensures
        r == parsed_your_ip(slice@),
{
    if slice.len() == 4 {
        assert(slice@.subrange(0, 4) =~= slice@);
        Some(IpAddr::V4(read_u32(slice, 0)))
    } else if slice.len() == 16 {
        assert(slice@.subrange(0, 16) =~= slice@);
        Some(IpAddr::V6(read_u128(slice, 0)))
    } else {
        None
    }
}

/// The compact form of an address without a port.
pub fn encode_your_ip(ip: &IpAddr) -> (r: Vec<u8>)
    ensures
        r@ == compact_your_ip(*ip),
{
    let mut out: Vec<u8> = Vec::new();
    match *ip {
        IpAddr::V4(ip) => {
            push_u32(&mut out, ip);
        },
        IpAddr::V6(ip) => {
            push_u128(&mut out, ip);
        },
    }
    assert(out@ =~= compact_your_ip(*ip));
    out
}

/// A compact address has 6 bytes for IPv4 and 18 for IPv6.
pub proof fn lemma_compact_len(addr: SocketAddr)
    ensures
        compact_ip(addr).len() == (if addr is V4 {
            6int
        } else {
            18
        }),
{
    match addr {
        SocketAddr::V4 { ip, port } => {
            lemma_big_endian_bytes_len(ip as nat, 4);
            lemma_big_endian_bytes_len(port as nat, 2);
        },
        SocketAddr::V6 { ip, port, .. } => {
            lemma_big_endian_bytes_len(ip as nat, 16);
            lemma_big_endian_bytes_len(port as nat, 2);
        },
    }
}

proof fn lemma_powers()
    ensures
        vstd::arithmetic::power::pow(256, 2) == 0x1_0000,
        vstd::arithmetic::power::pow(256, 4) == 0x1_0000_0000,
        vstd::arithmetic::power::pow(256, 16) == 0x1_0000_0000_0000_0000_0000_0000_0000_0000,
{
    reveal_with_fuel(vstd::arithmetic::power::pow, 17);
}

/// Parsing a compact address gives the address back; flow information and scope are not
/// part of the compact form.
pub proof fn law_compact_round_trip(addr: SocketAddr)
    ensures
        parsed_ip(compact_ip(addr)) == Some(
            match addr {
                SocketAddr::V4 { ip, port } => addr,
                SocketAddr::V6 { ip, port, .. } => SocketAddr::V6 {
                    ip,
                    port,
                    flowinfo: 0,
                    scope_id: 0,
                },
            },
        ),
{
    lemma_powers();
    lemma_compact_len(addr);
    let s = compact_ip(addr);
    match addr {
        SocketAddr::V4 { ip, port } => {
            lemma_big_endian_bytes_len(ip as nat, 4);
            lemma_big_endian_round_trip(ip as nat, 4);
            lemma_big_endian_round_trip(port as nat, 2);
            assert(s.subrange(0, 4) =~= big_endian_bytes(ip as nat, 4));
            assert(s.subrange(4, 6) =~= big_endian_bytes(port as nat, 2));
        },
        SocketAddr::V6 { ip, port, .. } => {
            lemma_big_endian_bytes_len(ip as nat, 16);
            lemma_big_endian_round_trip(ip as nat, 16);
            lemma_big_endian_round_trip(port as nat, 2);
            assert(s.subrange(0, 16) =~= big_endian_bytes(ip as nat, 16));
            assert(s.subrange(16, 18) =~= big_endian_bytes(port as nat, 2));
        },
    }
}

/// The compact form of an address that was parsed is what it was parsed from.
pub proof fn law_parsed_compact(s: Seq<u8>)
    ensures
        parsed_ip(s) matches Some(addr) ==> compact_ip(addr) == s,
{
    if s.len() == 6 {
        crate::bytes::lemma_big_endian_4(s.subrange(0, 4));
        crate::bytes::lemma_big_endian_2(s.subrange(4, 6));
        lemma_big_endian_bytes_of(s.subrange(0, 4));
        lemma_big_endian_bytes_of(s.subrange(4, 6));
        assert(s =~= s.subrange(0, 4) + s.subrange(4, 6));
    } else if s.len() == 18 {
        lemma_powers();
        crate::bytes::lemma_big_endian_bound(s.subrange(0, 16));
        crate::bytes::lemma_big_endian_2(s.subrange(16, 18));
        lemma_big_endian_bytes_of(s.subrange(0, 16));
        lemma_big_endian_bytes_of(s.subrange(16, 18));
        assert(s =~= s.subrange(0, 16) + s.subrange(16, 18));
    }
}

/// An address without a port survives its compact form.
pub proof fn law_compact_your_ip_round_trip(ip: IpAddr)
    ensures
        parsed_your_ip(compact_your_ip(ip)) == Some(ip),
{
    lemma_powers();
    match ip {
        IpAddr::V4(n) => {
            lemma_big_endian_bytes_len(n as nat, 4);
            lemma_big_endian_round_trip(n as nat, 4);
        },
        IpAddr::V6(n) => {
            lemma_big_endian_bytes_len(n as nat, 16);
            lemma_big_endian_round_trip(n as nat, 16);
        },
    }
}

/// A compact address holds the number of the IP address, the highest byte first, in 4 bytes
/// or 16, and behind it the port in two.
pub proof fn law_compact(addr: SocketAddr)
    ensures
        match addr {
            SocketAddr::V4 { ip, port } => {
                &&& compact_ip(addr).len() == 6
                &&& big_endian(compact_ip(addr).take(4)) == ip
                &&& big_endian(compact_ip(addr).skip(4)) == port
            },
            SocketAddr::V6 { ip, port, .. } => {
                &&& compact_ip(addr).len() == 18
                &&& big_endian(compact_ip(addr).take(16)) == ip
                &&& big_endian(compact_ip(addr).skip(16)) == port
            },
        },
{
    lemma_powers();
    match addr {
        SocketAddr::V4 { ip, port } => {
            lemma_big_endian_bytes_len(ip as nat, 4);
            lemma_big_endian_bytes_len(port as nat, 2);
            assert(compact_ip(addr).take(4) =~= big_endian_bytes(ip as nat, 4));
            assert(compact_ip(addr).skip(4) =~= big_endian_bytes(port as nat, 2));
            lemma_big_endian_round_trip(ip as nat, 4);
            lemma_big_endian_round_trip(port as nat, 2);
        },
        SocketAddr::V6 { ip, port, .. } => {
            lemma_big_endian_bytes_len(ip as nat, 16);
            lemma_big_endian_bytes_len(port as nat, 2);
            assert(compact_ip(addr).take(16) =~= big_endian_bytes(ip as nat, 16));
            assert(compact_ip(addr).skip(16) =~= big_endian_bytes(port as nat, 2));
            lemma_big_endian_round_trip(ip as nat, 16);
            lemma_big_endian_round_trip(port as nat, 2);
        },
    }
}

/// Bytes are read as an address with a port where there are 6 or 18, and as one without where
/// there are 4 or 16.
pub proof fn law_parsed_lengths(s: Seq<u8>)
    ensures
        parsed_ip(s) is Some <==> s.len() == 6 || s.len() == 18,
        parsed_ip(s) matches Some(addr) ==> (addr is V4 <==> s.len() == 6),
        parsed_your_ip(s) is Some <==> s.len() == 4 || s.len() == 16,
        parsed_your_ip(s) matches Some(ip) ==> (ip is V4 <==> s.len() == 4),
{
}

/// The compact form of an address without a port is its number, the highest byte first.
pub proof fn law_compact_your_ip(ip: IpAddr)
    ensures
        match ip {
            IpAddr::V4(n) => compact_your_ip(ip).len() == 4 && big_endian(compact_your_ip(ip)) == n,
            IpAddr::V6(n) => compact_your_ip(ip).len() == 16 && big_endian(compact_your_ip(ip))
                == n,
        },
{
    lemma_powers();
    match ip {
        IpAddr::V4(n) => {
            lemma_big_endian_bytes_len(n as nat, 4);
            lemma_big_endian_round_trip(n as nat, 4);
        },
        IpAddr::V6(n) => {
            lemma_big_endian_bytes_len(n as nat, 16);
            lemma_big_endian_round_trip(n as nat, 16);
        },
    }
}

} // verus!
