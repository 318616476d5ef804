//! The key exchange of message stream encryption: Diffie-Hellman in a group of 768 bits.

use super::crypto::{lemma_minimal_bytes, minimal_bytes, mod_pow};
use crate::bytes::{big_endian, lemma_big_endian_bound, lemma_big_endian_leading_zeros};
use crate::random::random_bytes;
use vstd::arithmetic::power::pow;
use vstd::prelude::*;

verus! {

/// The length of a public key.
pub const PE_KEY_LEN: usize = 96;

/// The big-endian bytes of the prime.
#[verifier::opaque]
pub open spec fn prime_bytes() -> Seq<u8> {
    seq![
        0xffu8, 0xff, 0xff, 0xff, 0xff, 0xff, 0xff, 0xff, 0xc9, 0x0f, 0xda, 0xa2,
        0x21, 0x68, 0xc2, 0x34, 0xc4, 0xc6, 0x62, 0x8b, 0x80, 0xdc, 0x1c, 0xd1,
        0x29, 0x02, 0x4e, 0x08, 0x8a, 0x67, 0xcc, 0x74, 0x02, 0x0b, 0xbe, 0xa6,
        0x3b, 0x13, 0x9b, 0x22, 0x51, 0x4a, 0x08, 0x79, 0x8e, 0x34, 0x04, 0xdd,
        0xef, 0x95, 0x19, 0xb3, 0xcd, 0x3a, 0x43, 0x1b, 0x30, 0x2b, 0x0a, 0x6d,
        0xf2, 0x5f, 0x14, 0x37, 0x4f, 0xe1, 0x35, 0x6d, 0x6d, 0x51, 0xc2, 0x45,
        0xe4, 0x85, 0xb5, 0x76, 0x62, 0x5e, 0x7e, 0xc6, 0xf4, 0x4c, 0x42, 0xe9,
        0xa6, 0x3a, 0x36, 0x21, 0x00, 0x00, 0x00, 0x00, 0x00, 0x09, 0x05, 0x63,
    ]
}

/// The prime.
pub open spec fn prime() -> int {
    big_endian(prime_bytes()) as int
}

/// The bytes of the public key for the private key `x`, as short as they can be.
pub open spec fn public_key(x: Seq<u8>) -> Seq<u8> {
    minimal_bytes((pow(2, big_endian(x)) % prime()) as nat)
}

/// The bytes of the secret that the private key `x` shares with the owner of the public
/// key `y`, as short as they can be.
pub open spec fn shared_key(x: Seq<u8>, y: Seq<u8>) -> Seq<u8> {
    minimal_bytes((pow(big_endian(y) as int, big_endian(x)) % prime()) as nat)
}

/// A key filled up with leading zeros to its full length.
pub open spec fn key_bytes(key: Seq<u8>) -> Seq<u8> {
    Seq::new((PE_KEY_LEN - key.len()) as nat, |i: int| 0u8) + key
}

/// The prime's bytes.
fn make_prime() -> (r: [u8; 96])
    ensures
        r@ == prime_bytes(),
{
    let r: [u8; 96] = [
        0xff, 0xff, 0xff, 0xff, 0xff, 0xff, 0xff, 0xff, 0xc9, 0x0f, 0xda, 0xa2,
        0x21, 0x68, 0xc2, 0x34, 0xc4, 0xc6, 0x62, 0x8b, 0x80, 0xdc, 0x1c, 0xd1,
        0x29, 0x02, 0x4e, 0x08, 0x8a, 0x67, 0xcc, 0x74, 0x02, 0x0b, 0xbe, 0xa6,
        0x3b, 0x13, 0x9b, 0x22, 0x51, 0x4a, 0x08, 0x79, 0x8e, 0x34, 0x04, 0xdd,
        0xef, 0x95, 0x19, 0xb3, 0xcd, 0x3a, 0x43, 0x1b, 0x30, 0x2b, 0x0a, 0x6d,
        0xf2, 0x5f, 0x14, 0x37, 0x4f, 0xe1, 0x35, 0x6d, 0x6d, 0x51, 0xc2, 0x45,
        0xe4, 0x85, 0xb5, 0x76, 0x62, 0x5e, 0x7e, 0xc6, 0xf4, 0x4c, 0x42, 0xe9,
        0xa6, 0x3a, 0x36, 0x21, 0x00, 0x00, 0x00, 0x00, 0x00, 0x09, 0x05, 0x63,
    ];
    proof {
        reveal(prime_bytes);
        assert(r@ =~= prime_bytes());
    }
    r
}

/// The prime is above one and fits in the length of a key.
pub proof fn lemma_prime()
    ensures
        prime() > 1,
        prime() < pow(256, 96),
{
    reveal(prime_bytes);
    let s = prime_bytes();
    assert(s.len() == 96);
    assert(s.last() == 0x63);
    lemma_big_endian_bound(s);
}

/// A random private key, 160 bits long.
pub fn make_private_key() -> (r: Vec<u8>)
    ensures
        r@.len() == 20,
{
    random_bytes(20)
}

/// The public key for a private key.
pub fn make_public_key(private_key: &[u8]) -> (r: Vec<u8>)
    ensures
        r@ == public_key(private_key@),
        0 < r@.len() <= PE_KEY_LEN,
{
    let g: [u8; 1] = [2];
    let prime = make_prime();
    proof {
        lemma_prime();
        lemma_key_len(pow(2, big_endian(private_key@)));
        assert(g@.drop_last() =~= seq![]);
        assert(big_endian(g@) == 2) by {
            reveal_with_fuel(big_endian, 2);
        }
    }
    mod_pow(g.as_slice(), private_key, prime.as_slice())
}

/// The secret that a private key shares with the owner of a public key.
pub fn make_shared_key(private_key: &[u8], public_key: &[u8]) -> (r: Vec<u8>)
    ensures
        r@ == shared_key(private_key@, public_key@),
        0 < r@.len() <= PE_KEY_LEN,
{
    let prime = make_prime();
    proof {
        lemma_prime();
        lemma_key_len(pow(big_endian(public_key@) as int, big_endian(private_key@)));
    }
    mod_pow(public_key, private_key, prime.as_slice())
}

/// What a number is by the prime has at most the length of a key.
proof fn lemma_key_len(n: int)
    ensures
        0 <= n % prime() < prime(),
        0 < minimal_bytes((n % prime()) as nat).len() <= PE_KEY_LEN,
        big_endian(minimal_bytes((n % prime()) as nat)) == n % prime(),
{
    lemma_prime();
    assert(0 <= n % prime() < prime()) by (nonlinear_arith)
        requires
            prime() > 1,
    ;
    lemma_minimal_bytes((n % prime()) as nat, 96);
}

/// A key filled up with leading zeros.
pub fn make_key_to_bytes(key: &[u8]) -> (r: [u8; 96])
    requires
        key@.len() <= PE_KEY_LEN,
    ensures
        r@ == key_bytes(key@),
{
    let mut bytes: [u8; 96] = [0u8;96];
    let offset: usize = PE_KEY_LEN - key.len();
    let mut i: usize = 0;
    while i < key.len()
        invariant
            i <= key@.len() <= PE_KEY_LEN,
            offset == PE_KEY_LEN - key@.len(),
            forall|j: int| 0 <= j < offset ==> bytes@[j] == 0,
            forall|j: int| offset <= j < offset + i ==> bytes@[j] == key@[j - offset],
        decreases key@.len() - i,
    {
        bytes[offset + i] = key[i];
        i += 1;
    }
    assert(bytes@ =~= key_bytes(key@));
    bytes
}

/// A key filled up with leading zeros stands for the same number.
pub proof fn lemma_key_bytes(key: Seq<u8>)
    requires
        key.len() <= PE_KEY_LEN,
    ensures
        key_bytes(key).len() == PE_KEY_LEN,
        big_endian(key_bytes(key)) == big_endian(key),
{
    lemma_big_endian_leading_zeros((PE_KEY_LEN - key.len()) as nat, key);
}

/// Both sides come to the same secret, each from its private key and the other's public
/// key as it is sent.
pub proof fn law_shared_secret(a: Seq<u8>, b: Seq<u8>)
    ensures
        shared_key(a, key_bytes(public_key(b))) == shared_key(b, key_bytes(public_key(a))),
        key_bytes(public_key(a)).len() == PE_KEY_LEN,
        key_bytes(public_key(b)).len() == PE_KEY_LEN,
{
    let p = prime();
    let x = big_endian(a);
    let y = big_endian(b);
    lemma_prime();
    lemma_key_len(pow(2, x));
    lemma_key_len(pow(2, y));
    lemma_key_bytes(public_key(a));
    lemma_key_bytes(public_key(b));
    vstd::arithmetic::power::lemma_pow_mod_noop(pow(2, x), y, p);
    vstd::arithmetic::power::lemma_pow_mod_noop(pow(2, y), x, p);
    vstd::arithmetic::power::lemma_pow_multiplies(2, x, y);
    vstd::arithmetic::power::lemma_pow_multiplies(2, y, x);
    assert(x * y == y * x) by (nonlinear_arith);
}

/// The public key for a private one is that power of two by the prime, and a shared secret
/// that power of the other's public key; as it is sent, a key has 96 bytes.
pub proof fn law_public_key(x: Seq<u8>)
    ensures
        big_endian(public_key(x)) == pow(2, big_endian(x)) % prime(),
        key_bytes(public_key(x)).len() == 96,
        big_endian(key_bytes(public_key(x))) == pow(2, big_endian(x)) % prime(),
        forall|y: Seq<u8>|
            big_endian(#[trigger] shared_key(x, y)) == pow(big_endian(y) as int, big_endian(x))
                % prime(),
{
    lemma_key_len(pow(2, big_endian(x)));
    lemma_key_bytes(public_key(x));
    assert forall|y: Seq<u8>|
        big_endian(#[trigger] shared_key(x, y)) == pow(big_endian(y) as int, big_endian(x))
            % prime() by {
        lemma_key_len(pow(big_endian(y) as int, big_endian(x)));
    }
}

} // verus!
