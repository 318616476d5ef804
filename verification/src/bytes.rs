//! Byte sequences: text, equality, lexicographic order and big-endian integers.

use vstd::prelude::*;
use vstd::string::StringSliceAdditionalSpecFns;

verus! {

/// The bytes of a string (its UTF-8 encoding).
pub open spec fn text(s: &str) -> Seq<u8> {
    s.spec_bytes()
}

/// An owned copy of the bytes of a string.
pub fn to_bytes(s: &str) -> (r: Vec<u8>)
    ensures
        r@ == text(s),
{
    vstd::slice::slice_to_vec(s.as_bytes())
}

/// An owned copy of a slice.
pub fn copy_slice(s: &[u8]) -> (r: Vec<u8>)
    ensures
        r@ == s@,
{
    vstd::slice::slice_to_vec(s)
}

/// The bytes of `s` in the positions `from..to`.
pub fn sub_slice(s: &[u8], from: usize, to: usize) -> (r: &[u8])
    requires
        from <= to <= s@.len(),
    ensures
        r@ == s@.subrange(from as int, to as int),
{
    &s[from..to]
}

/// Appends the bytes of a slice.
pub fn append_slice(out: &mut Vec<u8>, s: &[u8])
    ensures
        final(out)@ == old(out)@ + s@,
{
    let mut i: usize = 0;
    while i < s.len()
        invariant
            i <= s@.len(),
            out@ == old(out)@ + s@.take(i as int),
        decreases s@.len() - i,
    {
        out.push(s[i]);
        assert(s@.take(i + 1) =~= s@.take(i as int).push(s@[i as int]));
        i += 1;
    }
    assert(s@.take(i as int) =~= s@);
}

/// Whether two slices hold the same bytes.
pub fn bytes_equal(a: &[u8], b: &[u8]) -> (r: bool)
    ensures
        r == (a@ == b@),
{
    if a.len() != b.len() {
        return false;
    }
    let mut i: usize = 0;
    while i < a.len()
        invariant
            i <= a@.len(),
            a@.len() == b@.len(),
            forall|j: int| 0 <= j < i ==> a@[j] == b@[j],
        decreases a@.len() - i,
    {
        if a[i] != b[i] {
            return false;
        }
        i += 1;
    }
    assert(a@ =~= b@);
    true
}

/// Lexicographic order on byte sequences.
pub open spec fn lex_less(a: Seq<u8>, b: Seq<u8>) -> bool
    decreases a.len(),
{
    if b.len() == 0 {
        false
    } else if a.len() == 0 {
        true
    } else if a[0] != b[0] {
        a[0] < b[0]
    } else {
        lex_less(a.skip(1), b.skip(1))
    }
}

/// The result of a comparison.
#[derive(Debug, Clone, Copy, PartialEq, Eq, Structural)]
pub enum Order {
    Less,
    Equal,
    Greater,
}

/// How `a` stands to `b` in lexicographic order.
pub open spec fn lex_order(a: Seq<u8>, b: Seq<u8>) -> Order {
    if a == b {
        Order::Equal
    } else if lex_less(a, b) {
        Order::Less
    } else {
        Order::Greater
    }
}

/// A common first part does not matter to the order.
pub proof fn lemma_lex_skip(a: Seq<u8>, b: Seq<u8>, n: int)
    requires
        0 <= n <= a.len(),
        n <= b.len(),
        a.take(n) == b.take(n),
    ensures
        lex_less(a, b) == lex_less(a.skip(n), b.skip(n)),
    decreases n,
{
    if n == 0 {
        assert(a.skip(0) =~= a);
        assert(b.skip(0) =~= b);
    } else {
        assert(a[0] == a.take(n)[0]);
        assert(b[0] == b.take(n)[0]);
        assert(a.skip(1).take(n - 1) =~= a.take(n).skip(1));
        assert(b.skip(1).take(n - 1) =~= b.take(n).skip(1));
        lemma_lex_skip(a.skip(1), b.skip(1), n - 1);
        assert(a.skip(1).skip(n - 1) =~= a.skip(n));
        assert(b.skip(1).skip(n - 1) =~= b.skip(n));
    }
}

/// No sequence is less than itself.
pub proof fn lemma_lex_irreflexive(a: Seq<u8>)
    ensures
        !lex_less(a, a),
    decreases a.len(),
{
    if a.len() > 0 {
        lemma_lex_irreflexive(a.skip(1));
    }
}

/// The order is transitive.
pub proof fn lemma_lex_transitive(a: Seq<u8>, b: Seq<u8>, c: Seq<u8>)
    requires
        lex_less(a, b),
        lex_less(b, c),
    ensures
        lex_less(a, c),
    decreases a.len(),
{
    if a.len() > 0 && a[0] == b[0] && b[0] == c[0] {
        lemma_lex_transitive(a.skip(1), b.skip(1), c.skip(1));
    }
}

/// Of two different sequences one is less than the other.
pub proof fn lemma_lex_total(a: Seq<u8>, b: Seq<u8>)
    ensures
        a == b || lex_less(a, b) || lex_less(b, a),
    decreases a.len(),
{
    if a.len() > 0 && b.len() > 0 && a[0] == b[0] {
        lemma_lex_total(a.skip(1), b.skip(1));
        if a.skip(1) == b.skip(1) {
            assert(a =~= seq![a[0]] + a.skip(1));
            assert(b =~= seq![b[0]] + b.skip(1));
        }
    } else if a.len() == 0 && b.len() == 0 {
        assert(a =~= b);
    }
}

/// Compares two slices lexicographically.
pub fn lex_compare(a: &[u8], b: &[u8]) -> (r: Order)
    ensures
        r == lex_order(a@, b@),
{
    let mut i: usize = 0;
    while i < a.len() && i < b.len()
        invariant
            i <= a@.len(),
            i <= b@.len(),
            forall|j: int| 0 <= j < i ==> a@[j] == b@[j],
        decreases a@.len() - i,
    {
        if a[i] != b[i] {
            proof {
                assert(a@.take(i as int) =~= b@.take(i as int));
                lemma_lex_skip(a@, b@, i as int);
            }
            return if a[i] < b[i] {
                Order::Less
            } else {
                Order::Greater
            };
        }
        i += 1;
    }
    proof {
        assert(a@.take(i as int) =~= b@.take(i as int));
        lemma_lex_skip(a@, b@, i as int);
    }
    if a.len() == b.len() {
        assert(a@ =~= b@);
        Order::Equal
    } else if a.len() < b.len() {
        Order::Less
    } else {
        Order::Greater
    }
}

/// The number whose big-endian digits in base 256 are the bytes of `s`.
pub open spec fn big_endian(s: Seq<u8>) -> nat
    decreases s.len(),
{
    if s.len() == 0 {
        0
    } else {
        big_endian(s.drop_last()) * 256 + s.last() as nat
    }
}

/// The `len` low bytes of `n`, the highest first.
pub open spec fn big_endian_bytes(n: nat, len: nat) -> Seq<u8>
    decreases len,
{
    if len == 0 {
        seq![]
    } else {
        big_endian_bytes(n / 256, (len - 1) as nat).push((n % 256) as u8)
    }
}

pub proof fn lemma_big_endian_bytes_len(n: nat, len: nat)
    ensures
        big_endian_bytes(n, len).len() == len,
    decreases len,
{
    if len > 0 {
        lemma_big_endian_bytes_len(n / 256, (len - 1) as nat);
    }
}

/// Reading the bytes of a number that fits gives the number back.
pub proof fn lemma_big_endian_round_trip(n: nat, len: nat)
    requires
        n < vstd::arithmetic::power::pow(256, len),
    ensures
        big_endian(big_endian_bytes(n, len)) == n,
    decreases len,
{
    reveal(vstd::arithmetic::power::pow);
    if len > 0 {
        let m = vstd::arithmetic::power::pow(256, (len - 1) as nat);
        assert(n / 256 < m) by (nonlinear_arith)
            requires
                n < 256 * m,
        ;
        lemma_big_endian_round_trip(n / 256, (len - 1) as nat);
        let s = big_endian_bytes(n, len);
        assert(s.drop_last() =~= big_endian_bytes(n / 256, (len - 1) as nat));
    }
}

/// Writing the number that bytes stand for gives the bytes back.
pub proof fn lemma_big_endian_bytes_of(s: Seq<u8>)
    ensures
        big_endian_bytes(big_endian(s), s.len()) == s,
    decreases s.len(),
{
    if s.len() == 0 {
        assert(s =~= seq![]);
    } else {
        lemma_big_endian_bytes_of(s.drop_last());
        let n = big_endian(s);
        assert(n / 256 == big_endian(s.drop_last()));
        assert(n % 256 == s.last());
        assert(s =~= s.drop_last().push(s.last()));
    }
}

/// Leading zeros do not change the number.
pub proof fn lemma_big_endian_leading_zeros(n: nat, s: Seq<u8>)
    ensures
        big_endian(Seq::new(n, |i: int| 0u8) + s) == big_endian(s),
    decreases n + s.len(),
{
    let z = Seq::new(n, |i: int| 0u8);
    if s.len() > 0 {
        assert((z + s).drop_last() =~= z + s.drop_last());
        lemma_big_endian_leading_zeros(n, s.drop_last());
    } else if n > 0 {
        assert((z + s).drop_last() =~= Seq::new((n - 1) as nat, |i: int| 0u8) + s);
        lemma_big_endian_leading_zeros((n - 1) as nat, s);
    }
}

/// The number that bytes stand for is less than the power of 256 for their count.
pub proof fn lemma_big_endian_bound(s: Seq<u8>)
    ensures
        big_endian(s) < vstd::arithmetic::power::pow(256, s.len()),
    decreases s.len(),
{
    reveal(vstd::arithmetic::power::pow);
    if s.len() > 0 {
        lemma_big_endian_bound(s.drop_last());
    }
}

pub proof fn lemma_big_endian_2(s: Seq<u8>)
    requires
        s.len() == 2,
    ensures
        big_endian(s) == s[0] * 256 + s[1],
{
    reveal_with_fuel(big_endian, 3);
}

pub proof fn lemma_big_endian_4(s: Seq<u8>)
    requires
        s.len() == 4,
    ensures
        big_endian(s) == s[0] * 0x100_0000 + s[1] * 0x1_0000 + s[2] * 0x100 + s[3],
{
    reveal_with_fuel(big_endian, 5);
}

/// The unsigned 16-bit number at `at`.
pub fn read_u16(s: &[u8], at: usize) -> (r: u16)
    requires
        at + 2 <= s@.len(),
    ensures
        r == big_endian(s@.subrange(at as int, at + 2)),
{
    proof {
        lemma_big_endian_2(s@.subrange(at as int, at + 2));
    }
    s[at] as u16 * 256 + s[at + 1] as u16
}

/// The unsigned 32-bit number at `at`.
pub fn read_u32(s: &[u8], at: usize) -> (r: u32)
    requires
        at + 4 <= s@.len(),
    ensures
        r == big_endian(s@.subrange(at as int, at + 4)),
{
    proof {
        lemma_big_endian_4(s@.subrange(at as int, at + 4));
    }
    s[at] as u32 * 0x100_0000 + s[at + 1] as u32 * 0x1_0000 + s[at + 2] as u32 * 0x100 + s[at
        + 3] as u32
}

/// The unsigned 64-bit number at `at`.
pub fn read_u64(s: &[u8], at: usize) -> (r: u64)
    requires
        at + 8 <= s@.len(),
    ensures
        r == big_endian(s@.subrange(at as int, at + 8)),
{
    let size: usize = s.len();
    assert(at + 8 <= size);
    let high: u32 = read_u32(s, at);
    let low: u32 = read_u32(s, at + 4);
    proof {
        reveal_with_fuel(big_endian, 5);
        let t = s@.subrange(at as int, at + 8);
        let a = t.subrange(0, 4);
        let b = t.subrange(4, 8);
        assert(a =~= s@.subrange(at as int, at + 4));
        assert(b =~= s@.subrange(at + 4, at + 8));
        lemma_big_endian_4(a);
        lemma_big_endian_4(b);
        let t7 = t.drop_last();
        let t6 = t7.drop_last();
        let t5 = t6.drop_last();
        assert(t5.drop_last() =~= a);
    }
    high as u64 * 0x1_0000_0000 + low as u64
}

/// The unsigned 128-bit number at `at`.
pub fn read_u128(s: &[u8], at: usize) -> (r: u128)
    requires
        at + 16 <= s@.len(),
    ensures
        r == big_endian(s@.subrange(at as int, at + 16)),
{
    let size: usize = s.len();
    assert(at + 16 <= size);
    let high: u64 = read_u64(s, at);
    let low: u64 = read_u64(s, at + 8);
    proof {
        let t = s@.subrange(at as int, at + 16);
        assert(t =~= s@.subrange(at as int, at + 8) + s@.subrange(at + 8, at + 16));
        lemma_big_endian_concat(
            s@.subrange(at as int, at + 8),
            s@.subrange(at + 8, at + 16),
        );
        assert(vstd::arithmetic::power::pow(256, 8) == 0x1_0000_0000_0000_0000) by {
            reveal_with_fuel(vstd::arithmetic::power::pow, 9);
        }
    }
    high as u128 * 0x1_0000_0000_0000_0000 + low as u128
}

/// Bytes put behind others shift their number.
proof fn lemma_big_endian_concat(a: Seq<u8>, b: Seq<u8>)
    ensures
        big_endian(a + b) == big_endian(a) * vstd::arithmetic::power::pow(256, b.len())
            + big_endian(b),
    decreases b.len(),
{
    reveal(vstd::arithmetic::power::pow);
    if b.len() == 0 {
        assert(a + b =~= a);
    } else {
        let c = b.drop_last();
        assert((a + b).drop_last() =~= a + c);
        lemma_big_endian_concat(a, c);
        let p = vstd::arithmetic::power::pow(256, c.len());
        let x = big_endian(a) as int;
        assert((x * p) * 256 == x * (256 * p)) by (nonlinear_arith);
    }
}

/// Appends a 16-bit number.
pub fn push_u16(out: &mut Vec<u8>, n: u16)
    ensures
        final(out)@ == old(out)@ + big_endian_bytes(n as nat, 2),
{
    out.push((n / 256) as u8);
    out.push((n % 256) as u8);
    proof {
        reveal_with_fuel(big_endian_bytes, 3);
        assert(out@ =~= old(out)@ + big_endian_bytes(n as nat, 2));
    }
}

/// Appends a 32-bit number.
pub fn push_u32(out: &mut Vec<u8>, n: u32)
    ensures
        final(out)@ == old(out)@ + big_endian_bytes(n as nat, 4),
{
    push_u16(out, (n / 0x1_0000) as u16);
    push_u16(out, (n % 0x1_0000) as u16);
    proof {
        lemma_big_endian_short_halves(n as nat);
        assert(out@ =~= old(out)@ + big_endian_bytes(n as nat, 4));
    }
}

/// `n` without its `k` low bytes.
spec fn shifted(n: nat, k: nat) -> nat
    decreases k,
{
    if k == 0 {
        n
    } else {
        shifted(n / 256, (k - 1) as nat)
    }
}

/// The bytes of a number are those of its high part and its low ones.
proof fn lemma_big_endian_split(n: nat, high: nat, low: nat)
    ensures
        big_endian_bytes(n, high + low) == big_endian_bytes(shifted(n, low), high)
            + big_endian_bytes(n, low),
    decreases low,
{
    if low == 0 {
        assert(big_endian_bytes(n, high) + big_endian_bytes(n, 0) =~= big_endian_bytes(n, high));
    } else {
        lemma_big_endian_split(n / 256, high, (low - 1) as nat);
        assert(big_endian_bytes(n, high + low) == big_endian_bytes(
            n / 256,
            (high + low - 1) as nat,
        ).push((n % 256) as u8));
        assert((high + low - 1) as nat == high + (low - 1) as nat);
        assert(big_endian_bytes(n, high + low) =~= big_endian_bytes(shifted(n, low), high)
            + big_endian_bytes(n, low));
    }
}

/// The low bytes of a number do not depend on what is above them.
pub proof fn lemma_big_endian_low(n: nat, k: nat)
    ensures
        vstd::arithmetic::power::pow(256, k) > 0,
        big_endian_bytes(n, k) == big_endian_bytes(
            n % (vstd::arithmetic::power::pow(256, k) as nat),
            k,
        ),
    decreases k,
{
    reveal(vstd::arithmetic::power::pow);
    if k > 0 {
        let p = vstd::arithmetic::power::pow(256, (k - 1) as nat);
        lemma_big_endian_low(n / 256, (k - 1) as nat);
        vstd::arithmetic::div_mod::lemma_mod_breakdown(n as int, 256, p);
        let m = (n % ((256 * p) as nat)) as nat;
        assert(m % 256 == n % 256);
        assert(m / 256 == (n / 256) % (p as nat));
    }
}

/// Four bytes are the two of the high half and the two of the low half.
proof fn lemma_big_endian_short_halves(n: nat)
    ensures
        big_endian_bytes(n, 4) == big_endian_bytes(n / 0x1_0000, 2) + big_endian_bytes(
            n % 0x1_0000,
            2,
        ),
{
    lemma_big_endian_split(n, 2, 2);
    reveal_with_fuel(shifted, 3);
    lemma_big_endian_low(n, 2);
    reveal_with_fuel(vstd::arithmetic::power::pow, 3);
}

/// Sixteen bytes are the eight of the high half and the eight of the low half.
proof fn lemma_big_endian_wide_halves(n: nat)
    ensures
        big_endian_bytes(n, 16) == big_endian_bytes(n / 0x1_0000_0000_0000_0000, 8)
            + big_endian_bytes(n % 0x1_0000_0000_0000_0000, 8),
{
    lemma_big_endian_split(n, 8, 8);
    reveal_with_fuel(shifted, 9);
    lemma_big_endian_low(n, 8);
    reveal_with_fuel(vstd::arithmetic::power::pow, 9);
}

/// Appends a 128-bit number.
pub fn push_u128(out: &mut Vec<u8>, n: u128)
    ensures
        final(out)@ == old(out)@ + big_endian_bytes(n as nat, 16),
{
    push_u64(out, (n / 0x1_0000_0000_0000_0000) as u64);
    push_u64(out, (n % 0x1_0000_0000_0000_0000) as u64);
    proof {
        lemma_big_endian_wide_halves(n as nat);
        assert(out@ =~= old(out)@ + big_endian_bytes(n as nat, 16));
    }
}

/// Eight bytes are the four of the high half and the four of the low half.
proof fn lemma_big_endian_halves(n: nat)
    ensures
        big_endian_bytes(n, 8) == big_endian_bytes(n / 0x1_0000_0000, 4) + big_endian_bytes(
            n % 0x1_0000_0000,
            4,
        ),
{
    lemma_big_endian_split(n, 4, 4);
    reveal_with_fuel(shifted, 5);
    lemma_big_endian_low(n, 4);
    reveal_with_fuel(vstd::arithmetic::power::pow, 5);
}

/// Appends a 64-bit number.
pub fn push_u64(out: &mut Vec<u8>, n: u64)
    ensures
        final(out)@ == old(out)@ + big_endian_bytes(n as nat, 8),
{
    push_u32(out, (n / 0x1_0000_0000) as u32);
    push_u32(out, (n % 0x1_0000_0000) as u32);
    proof {
        lemma_big_endian_halves(n as nat);
        assert(out@ =~= old(out)@ + big_endian_bytes(n as nat, 8));
    }
}

/// A byte put behind others makes 256 times their number, and its own more.
pub proof fn law_big_endian(s: Seq<u8>, b: u8)
    ensures
        big_endian(Seq::empty()) == 0,
        big_endian(s.push(b)) == 256 * big_endian(s) + b,
{
    assert(s.push(b).drop_last() =~= s);
}

/// Of as many bytes, those come first that stand for the smaller number.
pub proof fn law_lex_number(a: Seq<u8>, b: Seq<u8>)
    requires
        a.len() == b.len(),
    ensures
        lex_less(a, b) <==> big_endian(a) < big_endian(b),
    decreases a.len(),
{
    if a.len() > 0 {
        law_lex_number(a.skip(1), b.skip(1));
        let n = (a.len() - 1) as nat;
        let p = vstd::arithmetic::power::pow(256, n);
        let (x, y) = (a[0], b[0]);
        let (u, v) = (big_endian(a.skip(1)), big_endian(b.skip(1)));
        assert(a =~= seq![x] + a.skip(1));
        assert(b =~= seq![y] + b.skip(1));
        lemma_big_endian_concat(seq![x], a.skip(1));
        lemma_big_endian_concat(seq![y], b.skip(1));
        lemma_big_endian_bound(a.skip(1));
        lemma_big_endian_bound(b.skip(1));
        law_big_endian(Seq::empty(), x);
        law_big_endian(Seq::empty(), y);
        assert(Seq::<u8>::empty().push(x) =~= seq![x]);
        assert(Seq::<u8>::empty().push(y) =~= seq![y]);
        assert(big_endian(a) == x * p + u);
        assert(big_endian(b) == y * p + v);
        if x < y {
            assert(x * p + u < y * p + v) by (nonlinear_arith)
                requires
                    x < y,
                    0 <= u < p,
                    0 <= v,
            ;
        } else if y < x {
            assert(y * p + v < x * p + u) by (nonlinear_arith)
                requires
                    y < x,
                    0 <= v < p,
                    0 <= u,
            ;
        }
    }
}

} // verus!
