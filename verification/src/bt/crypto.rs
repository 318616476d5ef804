//! Digests, key streams and modular powers, on plain bytes.

use crate::bytes::big_endian;
use vstd::arithmetic::power::pow;
use vstd::prelude::*;

verus! {

/// The SHA-1 digest of bytes.
pub uninterp spec fn sha1_digest(data: Seq<u8>) -> Seq<u8>;

/// The SHA-1 digest of bytes, from `sha1::Sha1` through `Digest::digest`: 20 bytes that
/// depend on the data alone.
#[verifier::external_body]
pub(crate) fn sha1(data: &[u8]) -> (r: [u8; 20])
    ensures
        r@ == sha1_digest(data@),
{
    <sha1::Sha1 as sha1::Digest>::digest(data).into()
}

/// The byte at a position of the RC4 key stream of a key.
pub uninterp spec fn rc4_byte(key: Seq<u8>, position: int) -> u8;

/// The first `len` bytes of the key stream of a 20-byte key, from `rc4::Rc4` through
/// `StreamCipher::apply_keystream` on zeros: each byte depends on the key and its position
/// alone.
#[verifier::external_body]
pub(crate) fn rc4_key_stream(key: &[u8; 20], len: usize) -> (r: Vec<u8>)
    ensures
        r@.len() == len,
        forall|i: int| 0 <= i < len ==> #[trigger] r@[i] == rc4_byte(key@, i),
{
    let mut cipher: rc4::Rc4<rc4::consts::U20> = rc4::KeyInit::new(&(*key).into());
    let mut stream = vec![0u8; len];
    rc4::StreamCipher::apply_keystream(&mut cipher, &mut stream);
    stream
}

/// The shortest big-endian bytes of a number; one zero for zero.
pub open spec fn minimal_bytes(n: nat) -> Seq<u8>
    decreases n,
{
    if n < 256 {
        seq![n as u8]
    } else {
        minimal_bytes(n / 256).push((n % 256) as u8)
    }
}

/// A power by a modulus above one, of numbers in big-endian bytes, from
/// `num_bigint::BigUint` through `from_bytes_be`, `modpow` and `to_bytes_be`: the shortest
/// bytes of `base ^ exponent % modulus`.
#[verifier::external_body]
pub(crate) fn mod_pow(base: &[u8], exponent: &[u8], modulus: &[u8]) -> (r: Vec<u8>)
    requires
        big_endian(modulus@) > 1,
    ensures
        r@ == minimal_bytes(
            (pow(big_endian(base@) as int, big_endian(exponent@)) % (big_endian(modulus@) as int)) as nat,
        ),
{
    let base = num_bigint::BigUint::from_bytes_be(base);
    let exponent = num_bigint::BigUint::from_bytes_be(exponent);
    let modulus = num_bigint::BigUint::from_bytes_be(modulus);
    base.modpow(&exponent, &modulus).to_bytes_be()
}

/// The shortest bytes of a number stand for it, and are not more than it needs.
pub proof fn lemma_minimal_bytes(n: nat, len: nat)
    requires
        len > 0,
        n < pow(256, len),
    ensures
        big_endian(minimal_bytes(n)) == n,
        0 < minimal_bytes(n).len() <= len,
    decreases n,
{
    reveal(pow);
    reveal_with_fuel(big_endian, 2);
    if n < 256 {
        assert(minimal_bytes(n).drop_last() =~= seq![]);
    } else {
        let m = pow(256, (len - 1) as nat);
        assert(n < 256 * m);
        if len == 1 {
            assert(m == 1);
        }
        lemma_minimal_bytes(n / 256, (len - 1) as nat);
        assert(minimal_bytes(n).drop_last() =~= minimal_bytes(n / 256));
    }
}

/// Data combined with a key stream from a position on.
pub open spec fn crypt(key: Seq<u8>, at: int, data: Seq<u8>) -> Seq<u8> {
    Seq::new(data.len(), |i: int| data[i] ^ rc4_byte(key, at + i))
}

/// A place in the key stream of a key.
pub struct KeyStream {
    key: [u8; 20],
    position: usize,
    block: Vec<u8>,
    block_start: usize,
}

impl KeyStream {
    /// The key.
    pub closed spec fn key(&self) -> Seq<u8> {
        self.key@
    }

    /// How many bytes of the stream were used.
    pub closed spec fn position(&self) -> int {
        self.position as int
    }

    /// Whether the bytes at hand are those of the stream.
    pub closed spec fn wf(&self) -> bool {
        &&& self.block_start + self.block@.len() <= usize::MAX
        &&& forall|i: int|
            0 <= i < self.block@.len() ==> #[trigger] self.block@[i] == rc4_byte(
                self.key@,
                self.block_start + i,
            )
    }

    /// The stream of a key, from a position on.
    pub fn new(key: [u8; 20], position: usize) -> (r: KeyStream)
        ensures
            r.wf(),
            r.key() == key@,
            r.position() == position,
    {
        KeyStream { key, position, block: Vec::new(), block_start: 0 }
    }

    /// How many bytes of the stream were used.
    pub fn used(&self) -> (r: usize)
        ensures
            r == self.position(),
    {
        self.position
    }

    /// Gets the bytes of the stream from the position to `end` at hand, and more, so that
    /// it is not often done.
    fn fill(&mut self, end: usize)
        requires
            old(self).wf(),
            old(self).position <= end,
        ensures
            final(self).wf(),
            final(self).key == old(self).key,
            final(self).position == old(self).position,
            final(self).block_start <= final(self).position,
            end <= final(self).block_start + final(self).block@.len(),
    {
        if self.block_start <= self.position && end <= self.block_start + self.block.len() {
            return;
        }
        let len: usize = if end <= usize::MAX / 2 {
            end * 2
        } else {
            end
        };
        let mut stream = rc4_key_stream(&self.key, len);
        let ghost all = stream@;
        let start: usize = self.position;
        let block = stream.split_off(start);
        assert(block@ =~= all.skip(start as int));
        self.block = block;
        self.block_start = start;
        assert forall|i: int| 0 <= i < self.block@.len() implies #[trigger] self.block@[i]
            == rc4_byte(self.key@, self.block_start + i) by {
            assert(self.block@[i] == all[start + i]);
        }
    }

    /// Combines data with the stream, which encrypts it or decrypts it.
    pub fn apply(&mut self, data: &[u8]) -> (r: Vec<u8>)
        requires
            old(self).wf(),
            old(self).position() + data@.len() <= usize::MAX,
        ensures
            final(self).wf(),
            final(self).key() == old(self).key(),
            final(self).position() == old(self).position() + data@.len(),
            r@ == crypt(old(self).key(), old(self).position(), data@),
    {
        let end: usize = self.position + data.len();
        self.fill(end);
        let mut out: Vec<u8> = Vec::new();
        let mut i: usize = 0;
        while i < data.len()
            invariant
                i <= data@.len(),
                out@.len() == i,
                self.wf(),
                self.block_start <= self.position,
                end == self.position + data@.len(),
                end <= self.block_start + self.block@.len(),
                forall|j: int|
                    0 <= j < i ==> out@[j] == data@[j] ^ rc4_byte(self.key@, self.position + j),
            decreases data@.len() - i,
        {
            let at: usize = self.position - self.block_start + i;
            assert(self.block@[at as int] == rc4_byte(self.key@, self.position + i));
            out.push(data[i] ^ self.block[at]);
            i += 1;
        }
        self.position = end;
        assert(out@ =~= crypt(old(self).key(), old(self).position(), data@));
        out
    }
}

/// What was encrypted is decrypted by the same part of the same stream.
pub proof fn law_crypt_round_trip(key: Seq<u8>, at: int, data: Seq<u8>)
    ensures
        crypt(key, at, crypt(key, at, data)) == data,
{
    let c = crypt(key, at, data);
    assert forall|i: int| 0 <= i < data.len() implies crypt(key, at, c)[i] == data[i] by {
        let k = rc4_byte(key, at + i);
        let d = data[i];
        assert((d ^ k) ^ k == d) by (bit_vector);
    }
    assert(crypt(key, at, c) =~= data);
}

/// Data can be encrypted part by part.
pub proof fn law_crypt_concat(key: Seq<u8>, at: int, a: Seq<u8>, b: Seq<u8>)
    ensures
        crypt(key, at, a + b) == crypt(key, at, a) + crypt(key, at + a.len(), b),
{
    assert(crypt(key, at, a + b) =~= crypt(key, at, a) + crypt(key, at + a.len(), b));
}

/// Each byte is combined with the byte of the key stream at its place, counted from the place
/// of the first.
pub proof fn law_crypt(key: Seq<u8>, at: int, data: Seq<u8>, i: int)
    requires
        0 <= i < data.len(),
    ensures
        crypt(key, at, data).len() == data.len(),
        crypt(key, at, data)[i] == data[i] ^ rc4_byte(key, at + i),
{
}

} // verus!
