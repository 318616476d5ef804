//! The identifiers of the DHT, 160 bits long.

use crate::bytes::{
    big_endian, law_lex_number, lemma_big_endian_leading_zeros, lemma_lex_irreflexive,
    lemma_lex_total, lex_less,
};
use crate::random::random_u8;
use crate::strings::{ascii_chars, ascii_string};
use vstd::prelude::*;
use vstd::string::StringSliceAdditionalSpecFns;
use vstd::utf8::is_char_boundary;

verus! {

/// The identifier of a node, or of anything that nodes are asked for.
#[derive(PartialOrd, Ord, Eq, Clone, Copy, Hash, Debug)]
pub struct NodeId {
    pub data: [u8; 20],
}

/// The hash by which a torrent is known.
pub type InfoHash = NodeId;

impl View for NodeId {
    type V = Seq<u8>;

    open spec fn view(&self) -> Seq<u8> {
        self.data@
    }
}

/// The bit of a byte at position `i`, the highest at 0.
pub open spec fn byte_bit(b: u8, i: int) -> bool {
    b & (1u8 << ((7 - i) as u8)) != 0
}

/// The bit of a byte sequence at position `i`, the highest of the first byte at 0.
pub open spec fn bit_at(s: Seq<u8>, i: int) -> bool {
    byte_bit(s[i / 8], i % 8)
}

/// The bytewise exclusive or.
pub open spec fn xor(a: Seq<u8>, b: Seq<u8>) -> Seq<u8> {
    Seq::new(a.len(), |i: int| a[i] ^ b[i])
}

/// The position of the first bit that is set, from position `i` on; the number of bits
/// where there is none.
pub open spec fn first_bit(s: Seq<u8>, i: int) -> int
    decreases 8 * s.len() - i,
{
    if i >= 8 * s.len() || bit_at(s, i) {
        i
    } else {
        first_bit(s, i + 1)
    }
}

/// How many bits stand before the first one that is set.
pub open spec fn leading_zeros(s: Seq<u8>) -> int {
    first_bit(s, 0)
}

/// Whether `a` is nearer to `target` than `b`.
pub open spec fn distance_less(target: Seq<u8>, a: Seq<u8>, b: Seq<u8>) -> bool {
    lex_less(xor(a, target), xor(b, target))
}

/// The lower-case hexadecimal digit of `n`.
pub open spec fn hex_digit(n: int) -> u8 {
    if n < 10 {
        (48 + n) as u8
    } else {
        (87 + n) as u8
    }
}

/// Two hexadecimal digits for each byte.
pub open spec fn hex_of(s: Seq<u8>) -> Seq<u8> {
    Seq::new(
        2 * s.len(),
        |i: int|
            if i % 2 == 0 {
                hex_digit(s[i / 2] as int / 16)
            } else {
                hex_digit(s[i / 2] as int % 16)
            },
    )
}

/// Eight binary digits for each byte.
pub open spec fn bin_of(s: Seq<u8>) -> Seq<u8> {
    Seq::new(
        8 * s.len(),
        |i: int|
            if bit_at(s, i) {
                49
            } else {
                48
            },
    )
}

/// What an ASCII hexadecimal digit, of either case, stands for.
pub open spec fn hex_value(b: u8) -> Option<int> {
    if 48 <= b <= 57 {
        Some(b - 48)
    } else if 97 <= b <= 102 {
        Some(b - 87)
    } else if 65 <= b <= 70 {
        Some(b - 55)
    } else {
        None
    }
}

/// What two bytes stand for as a hexadecimal numeral: two digits, or a plus sign and one.
pub open spec fn hex_pair(a: u8, b: u8) -> Option<int> {
    match (hex_value(a), hex_value(b)) {
        (Some(high), Some(low)) => Some(16 * high + low),
        (None, Some(low)) => if a == 43 {
            Some(low)
        } else {
            None
        },
        _ => None,
    }
}

/// The bytes that pairs of hexadecimal digits stand for, where all are such pairs.
pub open spec fn from_hex_bytes(s: Seq<u8>) -> Option<Seq<u8>> {
    if s.len() == 40 && forall|i: int| 0 <= i < 20 ==> #[trigger] hex_pair(s[2 * i], s[2 * i + 1]) is Some {
        Some(Seq::new(20, |i: int| hex_pair(s[2 * i], s[2 * i + 1])->Some_0 as u8))
    } else {
        None
    }
}

/// Whether a string of 40 bytes can be cut into pairs of bytes, up to the first that is
/// no number, without cutting a character in two.
pub open spec fn hex_splits(s: Seq<u8>) -> bool {
    s.len() == 40 ==> forall|i: int|
        0 <= i < 20 && (forall|j: int|
            0 <= j < i ==> #[trigger] hex_pair(s[2 * j], s[2 * j + 1]) is Some) ==> (
        #[trigger] is_char_boundary(s, 2 * i)) && is_char_boundary(s, 2 * i + 2)
}

/// Identifiers are equal where their bytes are.
pub proof fn lemma_id_eq()
    ensures
        vstd::laws_eq::obeys_concrete_eq::<NodeId>(),
{
    reveal(vstd::laws_eq::obeys_concrete_eq);
}

impl PartialEq for NodeId {
    fn eq(&self, other: &NodeId) -> (r: bool) {
        let mut i: usize = 0;
        while i < 20
            invariant
                i <= 20,
                forall|j: int| 0 <= j < i ==> self.data@[j] == other.data@[j],
            decreases 20 - i,
        {
            if self.data[i] != other.data[i] {
                return false;
            }
            i += 1;
        }
        proof {
            assert(self@ =~= other@);
            lemma_same_bytes(*self, *other);
        }
        true
    }
}

impl vstd::std_specs::cmp::PartialEqSpecImpl for NodeId {
    open spec fn obeys_eq_spec() -> bool {
        true
    }

    open spec fn eq_spec(&self, other: &NodeId) -> bool {
        *self == *other
    }
}

impl core::ops::BitXor for NodeId {
    type Output = NodeId;

    fn bitxor(self, rhs: NodeId) -> (r: NodeId)
        ensures
            r@ == xor(self@, rhs@),
    {
        let mut res = NodeId::zero();
        let mut i: usize = 0;
        while i < 20
            invariant
                i <= 20,
                forall|j: int| 0 <= j < i ==> res.data@[j] == self.data@[j] ^ rhs.data@[j],
            decreases 20 - i,
        {
            res.data[i] = self.data[i] ^ rhs.data[i];
            i += 1;
        }
        assert(res@ =~= xor(self@, rhs@));
        res
    }
}

impl vstd::std_specs::ops::BitXorSpecImpl for NodeId {
    open spec fn obeys_bitxor_spec() -> bool {
        false
    }

    open spec fn bitxor_req(self, rhs: NodeId) -> bool {
        true
    }

    open spec fn bitxor_spec(self, rhs: NodeId) -> NodeId {
        arbitrary()
    }
}

impl core::ops::Index<usize> for NodeId {
    type Output = u8;

    fn index(&self, index: usize) -> (r: &u8)
        ensures
            *r == self@[index as int],
    {
        &self.data[index]
    }
}

impl vstd::std_specs::core::IndexSpecImpl<usize> for NodeId {
    open spec fn index_req(&self, index: &usize) -> bool {
        *index < 20
    }
}

/// What setting, clearing and flipping a bit does to all bits of a byte.
proof fn lemma_byte_bits(b: u8, k: int, i: int)
    requires
        0 <= k < 8,
        0 <= i < 8,
    ensures
        byte_bit(b | (1u8 << ((7 - k) as u8)), i) == (i == k || byte_bit(b, i)),
        byte_bit(b & !(1u8 << ((7 - k) as u8)), i) == (i != k && byte_bit(b, i)),
        byte_bit(b ^ (1u8 << ((7 - k) as u8)), i) == (if i == k {
            !byte_bit(b, i)
        } else {
            byte_bit(b, i)
        }),
{
    let x = (7 - k) as u8;
    let y = (7 - i) as u8;
    assert(x < 8 && y < 8 ==> {
        &&& ((b | (1u8 << x)) & (1u8 << y) != 0) == (x == y || b & (1u8 << y) != 0)
        &&& ((b & !(1u8 << x)) & (1u8 << y) != 0) == (x != y && b & (1u8 << y) != 0)
        &&& ((b ^ (1u8 << x)) & (1u8 << y) != 0) == ((x == y) != (b & (1u8 << y) != 0))
    }) by (bit_vector);
}

proof fn lemma_byte_xor(a: u8, b: u8, i: int)
    requires
        0 <= i < 8,
    ensures
        byte_bit(a ^ b, i) == (byte_bit(a, i) != byte_bit(b, i)),
{
    let y = (7 - i) as u8;
    assert(y < 8 ==> ((a ^ b) & (1u8 << y) != 0) == ((a & (1u8 << y) != 0) != (b & (1u8 << y)
        != 0))) by (bit_vector);
}

/// A bit of the exclusive or is set where the two bits differ.
pub proof fn law_xor_bit(a: Seq<u8>, b: Seq<u8>, i: int)
    requires
        a.len() == b.len(),
        0 <= i < 8 * a.len(),
    ensures
        bit_at(xor(a, b), i) == (bit_at(a, i) != bit_at(b, i)),
{
    lemma_byte_xor(a[i / 8], b[i / 8], i % 8);
}

/// The exclusive or is commutative, and an identifier with itself gives zero.
pub proof fn law_xor(a: NodeId, b: NodeId)
    ensures
        xor(a@, b@) == xor(b@, a@),
        xor(a@, a@) == Seq::new(20, |i: int| 0u8),
        xor(xor(a@, b@), b@) == a@,
{
    assert(forall|x: u8, y: u8| #[trigger] (x ^ y) == y ^ x) by (bit_vector);
    assert(forall|x: u8| #[trigger] (x ^ x) == 0) by (bit_vector);
    assert(forall|x: u8, y: u8| (#[trigger] (x ^ y)) ^ y == x) by (bit_vector);
    assert(xor(a@, b@) =~= xor(b@, a@));
    assert(xor(a@, a@) =~= Seq::new(20, |i: int| 0u8));
    assert(xor(xor(a@, b@), b@) =~= a@);
}

/// All bits before the first one that is set are clear.
pub proof fn lemma_first_bit(s: Seq<u8>, i: int)
    requires
        0 <= i <= 8 * s.len(),
    ensures
        i <= first_bit(s, i) <= 8 * s.len(),
        forall|j: int| i <= j < first_bit(s, i) ==> !#[trigger] bit_at(s, j),
        first_bit(s, i) < 8 * s.len() ==> bit_at(s, first_bit(s, i)),
    decreases 8 * s.len() - i,
{
    if i < 8 * s.len() && !bit_at(s, i) {
        lemma_first_bit(s, i + 1);
    }
}

/// A position before which all bits are clear, and that is the end or a set bit, is the
/// number of leading zeros.
pub proof fn lemma_leading_zeros_is(s: Seq<u8>, n: int)
    requires
        0 <= n <= 8 * s.len(),
        forall|j: int| 0 <= j < n ==> !#[trigger] bit_at(s, j),
        n < 8 * s.len() ==> bit_at(s, n),
    ensures
        leading_zeros(s) == n,
{
    lemma_first_bit(s, 0);
    let m = first_bit(s, 0);
    if m < n {
        assert(!bit_at(s, m));
    } else if n < m {
        assert(!bit_at(s, n));
    }
}

/// Identifiers with the same bytes are equal.
pub proof fn lemma_same_bytes(a: NodeId, b: NodeId)
    requires
        a@ == b@,
    ensures
        a == b,
{
    assert(a.data =~= b.data);
}

/// The identifier with the given bytes.
pub open spec fn id_from(s: Seq<u8>) -> NodeId {
    choose|id: NodeId| id@ == s
}

/// An identifier is the one with its bytes.
pub proof fn lemma_id_from(id: NodeId)
    ensures
        id_from(id@) == id,
{
    lemma_same_bytes(id_from(id@), id);
}

/// An identifier that shares exactly `n` leading bits with another is at a distance with
/// `n` leading zeros.
pub proof fn law_shared_prefix(a: NodeId, b: NodeId, n: int)
    requires
        0 <= n <= 160,
        forall|i: int| 0 <= i < n ==> #[trigger] bit_at(a@, i) == bit_at(b@, i),
        n < 160 ==> bit_at(a@, n) != bit_at(b@, n),
    ensures
        leading_zeros(xor(a@, b@)) == n,
{
    assert forall|j: int| 0 <= j < n implies !#[trigger] bit_at(xor(a@, b@), j) by {
        law_xor_bit(a@, b@, j);
        assert(bit_at(a@, j) == bit_at(b@, j));
    }
    if n < 160 {
        law_xor_bit(a@, b@, n);
    }
    lemma_leading_zeros_is(xor(a@, b@), n);
}

/// Bytes in hexadecimal digits.
pub fn hex_string(s: &[u8]) -> (r: String)
    ensures
        r@ == ascii_chars(hex_of(s@)),
{
    let mut res: Vec<u8> = Vec::new();
    let mut i: usize = 0;
    while i < s.len()
        invariant
            i <= s@.len(),
            res@.len() == 2 * i,
            forall|j: int| 0 <= j < 2 * i ==> res@[j] == hex_of(s@)[j],
        decreases s@.len() - i,
    {
        res.push(make_hex_digit(s[i] / 16));
        res.push(make_hex_digit(s[i] % 16));
        i += 1;
    }
    assert(res@ =~= hex_of(s@));
    ascii_string(res)
}

impl NodeId {
    /// The identifier with all bits clear.
    pub fn zero() -> (r: NodeId)
        ensures
            r@ == Seq::new(20, |i: int| 0u8),
    {
        let r = NodeId { data: [0u8;20] };
        assert(r@ =~= Seq::new(20, |i: int| 0u8));
        r
    }

    /// The identifier with the given bytes.
    pub fn new(arr: [u8; 20]) -> (r: NodeId)
        ensures
            r.data == arr,
    {
        NodeId { data: arr }
    }

    /// The identifier with the bytes of a slice, where there are 20.
    pub fn from_slice(slice: &[u8]) -> (r: Option<NodeId>)
        ensures
            match r {
                Some(id) => id@ == slice@,
                None => slice@.len() != 20,
            },
    {
        if slice.len() != 20 {
            return None;
        }
        let mut id = NodeId::zero();
        let mut i: usize = 0;
        while i < 20
            invariant
                i <= 20,
                slice@.len() == 20,
                forall|j: int| 0 <= j < i ==> id.data@[j] == slice@[j],
            decreases 20 - i,
        {
            id.data[i] = slice[i];
            i += 1;
        }
        assert(id@ =~= slice@);
        Some(id)
    }

    /// A random identifier: any of them may come.
    pub fn rand() -> (r: NodeId) {
        let mut id = NodeId::zero();
        let mut i: usize = 0;
        while i < 20
            invariant
                i <= 20,
            decreases 20 - i,
        {
            id.data[i] = random_u8();
            i += 1;
        }
        id
    }

    /// An identifier that shares the first `prefix_len` bits with `id`, differs from it
    /// in the next, and is random behind.
    pub fn rand_with_prefix(id: NodeId, prefix_len: usize) -> (r: NodeId)
        requires
            prefix_len <= 160,
        ensures
            forall|i: int| 0 <= i < prefix_len ==> #[trigger] bit_at(r@, i) == bit_at(id@, i),
            prefix_len < 160 ==> bit_at(r@, prefix_len as int) != bit_at(id@, prefix_len as int),
            leading_zeros(xor(id@, r@)) == prefix_len,
    {
        let out = NodeId::rand();
        NodeId::with_prefix(id, prefix_len, out)
    }

    /// The identifier that has its first `prefix_len` bits from `id`, the next one
    /// flipped from `id`, and the others from `tail`.
    pub fn with_prefix(id: NodeId, prefix_len: usize, tail: NodeId) -> (r: NodeId)
        requires
            prefix_len <= 160,
        ensures
            forall|i: int|
                0 <= i < 160 ==> #[trigger] bit_at(r@, i) == (if i < prefix_len {
                    bit_at(id@, i)
                } else if i == prefix_len {
                    !bit_at(id@, i)
                } else {
                    bit_at(tail@, i)
                }),
            leading_zeros(xor(id@, r@)) == prefix_len,
    {
        let mut out = tail;
        let mut i: usize = 0;
        while i < prefix_len
            invariant
                i <= prefix_len <= 160,
                forall|j: int|
                    0 <= j < 160 ==> #[trigger] bit_at(out@, j) == (if j < i {
                        bit_at(id@, j)
                    } else {
                        bit_at(tail@, j)
                    }),
            decreases prefix_len - i,
        {
            out.bit_set(i, id.bit_test(i));
            i += 1;
        }
        if prefix_len < 160 {
            out.bit_set(prefix_len, !id.bit_test(prefix_len));
        }
        proof {
            law_shared_prefix(id, out, prefix_len as int);
        }
        out
    }

    /// Whether a string of 40 bytes can be cut into pairs of bytes, up to the first that is
    /// no number, without cutting a character in two.
    pub fn can_split_hex(hex: &str) -> (r: bool)
        ensures
            r == hex_splits(hex.spec_bytes()),
    {
        let s: &[u8] = hex.as_bytes();
        if s.len() != 40 {
            return true;
        }
        let mut i: usize = 0;
        while i < 20
            invariant
                i <= 20,
                s@.len() == 40,
                s@ == hex.spec_bytes(),
                forall|j: int|
                    0 <= j < i ==> (#[trigger] hex_pair(s@[2 * j], s@[2 * j + 1])) is Some,
                forall|j: int|
                    0 <= j < i ==> (#[trigger] is_char_boundary(s@, 2 * j)) && is_char_boundary(
                        s@,
                        2 * j + 2,
                    ),
            decreases 20 - i,
        {
            if !hex.is_char_boundary(2 * i) || !hex.is_char_boundary(2 * i + 2) {
                assert(!(is_char_boundary(s@, 2 * (i as int)) && is_char_boundary(
                    s@,
                    2 * (i as int) + 2,
                )));
                return false;
            }
            if parse_hex_pair(s[2 * i], s[2 * i + 1]).is_none() {
                assert(hex_pair(s@[2 * (i as int)], s@[2 * (i as int) + 1]) is None);
                return true;
            }
            i += 1;
        }
        true
    }

    /// The identifier that 40 hexadecimal digits stand for.
    pub fn from_hex(hex: &str) -> (r: Option<NodeId>)
        requires
            hex_splits(hex.spec_bytes()),
        ensures
            match r {
                Some(id) => from_hex_bytes(hex.spec_bytes()) == Some(id@),
                None => from_hex_bytes(hex.spec_bytes()) is None,
            },
    {
        let s: &[u8] = hex.as_bytes();
        if s.len() != 40 {
            return None;
        }
        let mut id = NodeId::zero();
        let mut i: usize = 0;
        while i < 20
            invariant
                i <= 20,
                s@.len() == 40,
                s@ == hex.spec_bytes(),
                forall|j: int|
                    0 <= j < i ==> (#[trigger] hex_pair(s@[2 * j], s@[2 * j + 1])) == Some(
                        id.data@[j] as int,
                    ),
            decreases 20 - i,
        {
            match parse_hex_pair(s[2 * i], s[2 * i + 1]) {
                Some(b) => {
                    id.data[i] = b;
                },
                None => {
                    assert(hex_pair(s@[2 * i as int], s@[2 * i as int + 1]) is None);
                    return None;
                },
            }
            i += 1;
        }
        proof {
            let v = from_hex_bytes(s@);
            assert(v is Some);
            assert forall|j: int| 0 <= j < 20 implies v->Some_0[j] == id@[j] by {
                assert(hex_pair(s@[2 * j], s@[2 * j + 1]) == Some(id.data@[j] as int));
            }
            assert(v->Some_0 =~= id@);
        }
        Some(id)
    }

    /// How many leading bits are clear; 160 where all are.
    pub fn leading_zeros(&self) -> (r: u32)
        ensures
            r == leading_zeros(self@),
            r <= 160,
    {
        let mut i: usize = 0;
        while i < 160 && !self.bit_test(i)
            invariant
                i <= 160,
                forall|j: int| 0 <= j < i ==> !#[trigger] bit_at(self@, j),
            decreases 160 - i,
        {
            i += 1;
        }
        proof {
            lemma_leading_zeros_is(self@, i as int);
        }
        i as u32
    }

    /// Whether all bits are clear.
    pub fn is_zero(&self) -> (r: bool)
        ensures
            r == (self@ == Seq::new(20, |i: int| 0u8)),
    {
        let mut i: usize = 0;
        while i < 20
            invariant
                i <= 20,
                forall|j: int| 0 <= j < i ==> self.data@[j] == 0,
            decreases 20 - i,
        {
            if self.data[i] != 0 {
                assert(self@[i as int] != Seq::new(20, |i: int| 0u8)[i as int]);
                return false;
            }
            i += 1;
        }
        assert(self@ =~= Seq::new(20, |i: int| 0u8));
        true
    }

    /// The identifier in hexadecimal digits.
    pub fn hex(&self) -> (r: String)
        ensures
            r@ == ascii_chars(hex_of(self@)),
    {
        hex_string(self.data.as_slice())
    }

    /// The identifier in binary digits.
    pub fn bin(&self) -> (r: String)
        ensures
            r@ == ascii_chars(bin_of(self@)),
    {
        let mut res: Vec<u8> = Vec::new();
        let mut i: usize = 0;
        while i < 160
            invariant
                i <= 160,
                res@.len() == i,
                forall|j: int| 0 <= j < i ==> res@[j] == bin_of(self@)[j],
            decreases 160 - i,
        {
            if self.bit_test(i) {
                res.push(49);
            } else {
                res.push(48);
            }
            i += 1;
        }
        assert(res@ =~= bin_of(self@));
        ascii_string(res)
    }

    /// Whether the bit at position `bit` is set.
    pub fn bit_test(&self, bit: usize) -> (r: bool)
        requires
            bit < 160,
        ensures
            r == bit_at(self@, bit as int),
    {
        let byte_index: usize = bit / 8;
        let bit_index: u8 = (bit % 8) as u8;
        (self.data[byte_index] & (1u8 << (7 - bit_index))) != 0
    }

    /// Flips the bit at position `bit`.
    pub fn bit_flip(&mut self, bit: usize)
        requires
            bit < 160,
        ensures
            forall|i: int|
                0 <= i < 160 ==> #[trigger] bit_at(final(self)@, i) == (if i == bit {
                    !bit_at(old(self)@, i)
                } else {
                    bit_at(old(self)@, i)
                }),
    {
        let byte_index: usize = bit / 8;
        let bit_index: u8 = (bit % 8) as u8;
        self.data[byte_index] = self.data[byte_index] ^ (1u8 << (7 - bit_index));
        proof {
            assert forall|i: int| 0 <= i < 160 implies #[trigger] bit_at(self@, i) == (if i == bit {
                !bit_at(old(self)@, i)
            } else {
                bit_at(old(self)@, i)
            }) by {
                lemma_byte_bits(old(self)@[i / 8], bit_index as int, i % 8);
            }
        }
    }

    /// Sets or clears the bit at position `bit`.
    pub fn bit_set(&mut self, bit: usize, value: bool)
        requires
            bit < 160,
        ensures
            forall|i: int|
                0 <= i < 160 ==> #[trigger] bit_at(final(self)@, i) == (if i == bit {
                    value
                } else {
                    bit_at(old(self)@, i)
                }),
    {
        let byte_index: usize = bit / 8;
        let bit_index: u8 = (bit % 8) as u8;
        if value {
            self.data[byte_index] = self.data[byte_index] | (1u8 << (7 - bit_index));
        } else {
            self.data[byte_index] = self.data[byte_index] & !(1u8 << (7 - bit_index));
        }
        proof {
            assert forall|i: int| 0 <= i < 160 implies #[trigger] bit_at(self@, i) == (if i == bit {
                value
            } else {
                bit_at(old(self)@, i)
            }) by {
                lemma_byte_bits(old(self)@[i / 8], bit_index as int, i % 8);
            }
        }
    }

    /// The bytes.
    pub fn as_slice(&self) -> (r: &[u8])
        ensures
            r@ == self@,
    {
        self.data.as_slice()
    }

    /// The bytes, to be changed in place.
    pub fn as_mut_slice(&mut self) -> (r: &mut [u8])
        ensures
            r@ == old(self)@,
            final(self)@ == final(r)@,
    {
        &mut self.data
    }

    /// A copy of the bytes.
    pub fn to_vec(&self) -> (r: Vec<u8>)
        ensures
            r@ == self@,
    {
        vstd::slice::slice_to_vec(self.as_slice())
    }
}

impl From<[u8; 20]> for NodeId {
    fn from(value: [u8; 20]) -> (r: NodeId) {
        NodeId { data: value }
    }
}

impl vstd::std_specs::convert::FromSpecImpl<[u8; 20]> for NodeId {
    open spec fn obeys_from_spec() -> bool {
        true
    }

    open spec fn from_spec(value: [u8; 20]) -> NodeId {
        NodeId { data: value }
    }
}

/// The lower-case hexadecimal digit of `n`.
fn make_hex_digit(n: u8) -> (r: u8)
    requires
        n < 16,
    ensures
        r == hex_digit(n as int),
        r < 128,
{
    if n < 10 {
        48 + n
    } else {
        87 + n
    }
}

/// What a hexadecimal digit stands for.
fn parse_hex_digit(b: u8) -> (r: Option<u8>)
    ensures
        match r {
            Some(n) => hex_value(b) == Some(n as int) && n < 16,
            None => hex_value(b) is None,
        },
{
    if 48 <= b && b <= 57 {
        Some(b - 48)
    } else if 97 <= b && b <= 102 {
        Some(b - 87)
    } else if 65 <= b && b <= 70 {
        Some(b - 55)
    } else {
        None
    }
}

/// What two bytes stand for as a hexadecimal numeral.
fn parse_hex_pair(a: u8, b: u8) -> (r: Option<u8>)
    ensures
        match r {
            Some(n) => hex_pair(a, b) == Some(n as int),
            None => hex_pair(a, b) is None,
        },
{
    match (parse_hex_digit(a), parse_hex_digit(b)) {
        (Some(high), Some(low)) => Some(16 * high + low),
        (None, Some(low)) => {
            if a == 43 {
                Some(low)
            } else {
                None
            }
        },
        _ => None,
    }
}

/// Reading the hexadecimal digits of an identifier gives the identifier back.
pub proof fn law_hex_round_trip(id: NodeId)
    ensures
        from_hex_bytes(hex_of(id@)) == Some(id@),
{
    let s = hex_of(id@);
    assert forall|i: int| 0 <= i < 20 implies #[trigger] hex_pair(s[2 * i], s[2 * i + 1]) == Some(
        id@[i] as int,
    ) by {
        assert((2 * i) / 2 == i);
        assert((2 * i + 1) / 2 == i);
    }
    assert(from_hex_bytes(s)->Some_0 =~= id@);
}

/// The bits of a byte, the highest first, are its digits in base two.
pub proof fn law_byte_bits(b: u8)
    ensures
        byte_bit(b, 0) <==> b / 128 % 2 == 1,
        byte_bit(b, 1) <==> b / 64 % 2 == 1,
        byte_bit(b, 2) <==> b / 32 % 2 == 1,
        byte_bit(b, 3) <==> b / 16 % 2 == 1,
        byte_bit(b, 4) <==> b / 8 % 2 == 1,
        byte_bit(b, 5) <==> b / 4 % 2 == 1,
        byte_bit(b, 6) <==> b / 2 % 2 == 1,
        byte_bit(b, 7) <==> b % 2 == 1,
{
    assert(((b & (1u8 << 7u8) != 0) == (b / 128 % 2 == 1)) && ((b & (1u8 << 6u8) != 0) == (b / 64
        % 2 == 1)) && ((b & (1u8 << 5u8) != 0) == (b / 32 % 2 == 1)) && ((b & (1u8 << 4u8) != 0)
        == (b / 16 % 2 == 1)) && ((b & (1u8 << 3u8) != 0) == (b / 8 % 2 == 1)) && ((b & (1u8
        << 2u8) != 0) == (b / 4 % 2 == 1)) && ((b & (1u8 << 1u8) != 0) == (b / 2 % 2 == 1)) && ((b
        & (1u8 << 0u8) != 0) == (b % 2 == 1))) by (bit_vector);
}

/// Each byte is written as two digits, of which the first counts sixteen times; a digit
/// from ten on is a letter, from `a` on.
pub proof fn law_hex_digits(s: Seq<u8>, i: int)
    requires
        0 <= i < s.len(),
    ensures
        hex_of(s).len() == 2 * s.len(),
        ({
            let digit = |b: u8|
                if b <= 57 {
                    b - 48
                } else {
                    b - 97 + 10
                };
            let (high, low) = (hex_of(s)[2 * i], hex_of(s)[2 * i + 1]);
            &&& (48 <= high <= 57 || 97 <= high <= 102)
            &&& (48 <= low <= 57 || 97 <= low <= 102)
            &&& s[i] == 16 * digit(high) + digit(low)
        }),
{
    let b = s[i] as int;
    assert(b == 16 * (b / 16) + b % 16);
}

/// Digits are read in either case, and what is no digit is not read.
pub proof fn law_hex_value(b: u8)
    ensures
        48 <= b <= 57 ==> hex_value(b) == Some(b - 48),
        97 <= b <= 102 ==> hex_value(b) == Some(b - 97 + 10),
        65 <= b <= 70 ==> hex_value(b) == Some(b - 65 + 10),
        hex_value(b) is Some ==> 48 <= b <= 57 || 97 <= b <= 102 || 65 <= b <= 70,
{
}

/// What is read is 40 bytes long, and gives 20 bytes, each from two digits.
pub proof fn law_hex_read(s: Seq<u8>, i: int)
    requires
        from_hex_bytes(s) is Some,
        0 <= i < 20,
    ensures
        s.len() == 40,
        from_hex_bytes(s)->Some_0.len() == 20,
        hex_value(s[2 * i]) is Some ==> hex_value(s[2 * i + 1]) is Some
            && from_hex_bytes(s)->Some_0[i] == 16 * hex_value(s[2 * i])->Some_0 + hex_value(
            s[2 * i + 1],
        )->Some_0,
{
    assert(hex_pair(s[2 * i], s[2 * i + 1]) is Some);
}

/// All that is made of 40 digits is read, and nothing that is longer or shorter.
pub proof fn law_hex_readable(s: Seq<u8>)
    ensures
        s.len() != 40 ==> from_hex_bytes(s) is None,
        s.len() == 40 && (forall|i: int| 0 <= i < 40 ==> hex_value(#[trigger] s[i]) is Some)
            ==> from_hex_bytes(s) is Some,
{
    if s.len() == 40 && (forall|i: int| 0 <= i < 40 ==> hex_value(#[trigger] s[i]) is Some) {
        assert forall|i: int| 0 <= i < 20 implies #[trigger] hex_pair(s[2 * i], s[2 * i + 1]) is Some by {
            assert(hex_value(s[2 * i]) is Some);
            assert(hex_value(s[2 * i + 1]) is Some);
        }
    }
}

/// The binary digits are those of the bits.
pub proof fn law_bin_digits(s: Seq<u8>, i: int)
    requires
        0 <= i < 8 * s.len(),
    ensures
        bin_of(s).len() == 8 * s.len(),
        bin_of(s)[i] as char == (if bit_at(s, i) {
            '1'
        } else {
            '0'
        }),
{
}

/// The nearer of two identifiers is the one at the smaller distance, the distance being the
/// number that the exclusive or stands for.
pub proof fn law_distance(target: NodeId, a: NodeId, b: NodeId)
    ensures
        distance_less(target@, a@, b@) <==> big_endian(xor(a@, target@)) < big_endian(
            xor(b@, target@),
        ),
        distance_less(target@, target@, a@) <==> a != target,
{
    law_lex_number(xor(a@, target@), xor(b@, target@));
    law_lex_number(xor(target@, target@), xor(a@, target@));
    law_xor(target, target);
    law_xor(a, target);
    if a != target {
        if xor(a@, target@) == xor(target@, target@) {
            assert(a@ =~= xor(xor(a@, target@), target@));
            law_xor(target, target);
            lemma_same_bytes(a, target);
        }
        lemma_lex_total(xor(target@, target@), xor(a@, target@));
        let zeros = xor(target@, target@);
        lemma_big_endian_leading_zeros(20, Seq::empty());
        assert(zeros =~= Seq::new(20, |i: int| 0u8) + Seq::<u8>::empty());
        assert(big_endian(zeros) == 0);
        law_lex_number(xor(a@, target@), zeros);
    } else {
        lemma_lex_irreflexive(xor(a@, target@));
    }
}

} // verus!
