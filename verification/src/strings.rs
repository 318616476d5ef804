//! Strings made from bytes, and texts without white space at their ends.

use crate::decimal::{decimal, digits_value, is_digit, law_decimal, lemma_decimal, push_decimal};
use vstd::prelude::*;
use vstd::string::StrSliceExecFns;
use vstd::utf8::{decode_utf8, encode_utf8, is_ascii_chars, valid_utf8};

verus! {

/// The characters whose codes are the bytes of `s`.
pub open spec fn ascii_chars(s: Seq<u8>) -> Seq<char> {
    Seq::new(s.len(), |i: int| s[i] as char)
}

/// The string that bytes encode, from `String::from_utf8`: a string exactly where the
/// bytes are valid UTF-8, and then the one that they decode to.
#[verifier::external_body]
pub(crate) fn string_from_utf8(bytes: Vec<u8>) -> (r: Option<String>)
    ensures
        match r {
            Some(s) => valid_utf8(bytes@) && s@ == decode_utf8(bytes@),
            None => !valid_utf8(bytes@),
        },
{
    String::from_utf8(bytes).ok()
}

/// The string that bytes encode, from `std::str::from_utf8`: a string exactly where the
/// bytes are valid UTF-8, and then the one with these bytes.
#[verifier::external_body]
pub(crate) fn str_from_utf8(bytes: &[u8]) -> (r: Option<&str>)
    ensures
        match r {
            Some(s) => valid_utf8(bytes@) && s@ == decode_utf8(bytes@),
            None => !valid_utf8(bytes@),
        },
{
    std::str::from_utf8(bytes).ok()
}

/// The text that `String::from_utf8_lossy` makes of bytes.
pub uninterp spec fn lossy_text(bytes: Seq<u8>) -> Seq<char>;

/// The text that bytes encode, from `String::from_utf8_lossy`: where they are valid UTF-8
/// the one that they decode to, else one in which what is invalid is replaced.
#[verifier::external_body]
pub(crate) fn string_from_utf8_lossy(bytes: &[u8]) -> (r: String)
    ensures
        r@ == lossy_text(bytes@),
        valid_utf8(bytes@) ==> r@ == decode_utf8(bytes@),
{
    String::from_utf8_lossy(bytes).into_owned()
}

/// The text that `str::to_lowercase` makes of a text.
pub uninterp spec fn lowercase_text(s: Seq<char>) -> Seq<char>;

/// A text in lower case, from `str::to_lowercase`: it depends on the text alone.
#[verifier::external_body]
pub(crate) fn lowercase(s: &str) -> (r: String)
    ensures
        r@ == lowercase_text(s@),
{
    s.to_lowercase()
}

/// Whether a character is white space, as Unicode has it.
pub open spec fn white_space(c: char) -> bool {
    let n = c as u32;
    ||| 0x9 <= n <= 0xd
    ||| n == 0x20
    ||| n == 0x85
    ||| n == 0xa0
    ||| n == 0x1680
    ||| 0x2000 <= n <= 0x200a
    ||| n == 0x2028
    ||| n == 0x2029
    ||| n == 0x202f
    ||| n == 0x205f
    ||| n == 0x3000
}

/// A text without the white space at its ends.
pub open spec fn trimmed_text(s: Seq<char>) -> Seq<char>
    decreases s.len(),
{
    if s.len() == 0 {
        s
    } else if white_space(s[0]) {
        trimmed_text(s.skip(1))
    } else if white_space(s.last()) {
        trimmed_text(s.drop_last())
    } else {
        s
    }
}

/// Whether a character is white space.
fn is_white_space(c: char) -> (r: bool)
    ensures
        r == white_space(c),
{
    let n: u32 = c as u32;
    (0x9 <= n && n <= 0xd) || n == 0x20 || n == 0x85 || n == 0xa0 || n == 0x1680 || (0x2000 <= n
        && n <= 0x200a) || n == 0x2028 || n == 0x2029 || n == 0x202f || n == 0x205f || n == 0x3000
}

/// A text without the white space at its ends.
pub fn trim(s: &str) -> (r: &str)
    ensures
        r@ == trimmed_text(s@),
{
    let n: usize = s.unicode_len();
    let mut from: usize = 0;
    assert(s@.subrange(0, n as int) =~= s@);
    while from < n && is_white_space(s.get_char(from))
        invariant
            n == s@.len(),
            from <= n,
            trimmed_text(s@) == trimmed_text(s@.subrange(from as int, n as int)),
        decreases n - from,
    {
        assert(s@.subrange(from as int, n as int).skip(1) =~= s@.subrange(from + 1, n as int));
        from += 1;
    }
    let mut to: usize = n;
    while from < to && is_white_space(s.get_char(to - 1))
        invariant
            n == s@.len(),
            from <= to <= n,
            from < n ==> !white_space(s@[from as int]),
            trimmed_text(s@) == trimmed_text(s@.subrange(from as int, to as int)),
        decreases to - from,
    {
        assert(s@.subrange(from as int, to as int).drop_last() =~= s@.subrange(
            from as int,
            to - 1,
        ));
        to -= 1;
    }
    s.substring_char(from, to)
}

/// ASCII bytes are the encoding of the characters with their codes.
pub proof fn lemma_ascii_chars(s: Seq<u8>)
    requires
        forall|i: int| 0 <= i < s.len() ==> #[trigger] s[i] < 128,
    ensures
        is_ascii_chars(ascii_chars(s)),
        encode_utf8(ascii_chars(s)) == s,
        valid_utf8(s),
        decode_utf8(s) == ascii_chars(s),
{
    let chars = ascii_chars(s);
    assert forall|i: int| 0 <= i < chars.len() implies '\0' <= #[trigger] chars[i] <= '\u{7f}' by {
        assert(s[i] < 128);
    }
    vstd::utf8::is_ascii_chars_encode_utf8(chars);
    assert(encode_utf8(chars) =~= s);
    vstd::utf8::encode_utf8_valid_utf8(chars);
    vstd::utf8::encode_utf8_decode_utf8(chars);
}

/// The string with the given ASCII codes.
pub fn ascii_string(bytes: Vec<u8>) -> (r: String)
    requires
        forall|i: int| 0 <= i < bytes@.len() ==> #[trigger] bytes@[i] < 128,
    ensures
        r@ == ascii_chars(bytes@),
{
    proof {
        lemma_ascii_chars(bytes@);
    }
    match string_from_utf8(bytes) {
        Some(s) => s,
        None => String::new(),
    }
}

/// A number as a text.
pub open spec fn number_text(n: u64) -> Seq<char> {
    ascii_chars(decimal(n as nat))
}

/// A number as a text.
pub fn number_string(n: u64) -> (r: String)
    ensures
        r@ == number_text(n),
{
    let mut digits: Vec<u8> = Vec::new();
    push_decimal(&mut digits, n);
    proof {
        lemma_decimal(n as nat);
        assert(digits@ =~= decimal(n as nat));
        assert forall|i: int| 0 <= i < digits@.len() implies #[trigger] digits@[i] < 128 by {
            assert(is_digit(digits@[i]));
        }
    }
    ascii_string(digits)
}

/// White space at the ends of a text is left out, and nothing else.
pub proof fn law_trimmed(s: Seq<char>) -> (ends: (Seq<char>, Seq<char>))
    ensures
        s == ends.0 + trimmed_text(s) + ends.1,
        forall|i: int| 0 <= i < ends.0.len() ==> white_space(#[trigger] ends.0[i]),
        forall|i: int| 0 <= i < ends.1.len() ==> white_space(#[trigger] ends.1[i]),
        trimmed_text(s).len() > 0 ==> !white_space(trimmed_text(s)[0]) && !white_space(
            trimmed_text(s).last(),
        ),
    decreases s.len(),
{
    let none = Seq::<char>::empty();
    if s.len() == 0 {
        assert(s =~= none + s + none);
        (none, none)
    } else if white_space(s[0]) {
        let (a, b) = law_trimmed(s.skip(1));
        assert(s =~= seq![s[0]] + s.skip(1));
        assert(s =~= (seq![s[0]] + a) + trimmed_text(s) + b);
        (seq![s[0]] + a, b)
    } else if white_space(s.last()) {
        let (a, b) = law_trimmed(s.drop_last());
        assert(s =~= s.drop_last().push(s.last()));
        assert(s =~= a + trimmed_text(s) + b.push(s.last()));
        (a, b.push(s.last()))
    } else {
        assert(s =~= none + s + none);
        (none, none)
    }
}

/// Of the characters of ASCII, the space and the five control characters from the tabulator
/// to the carriage return are white space.
pub proof fn law_ascii_white_space(c: char)
    requires
        c as u32 <= 127,
    ensures
        white_space(c) <==> c == ' ' || c == '\t' || c == '\n' || c == '\r' || c as u32 == 11
            || c as u32 == 12,
{
}

/// The text of a number is made of digits that stand for it, without a zero in front of
/// others.
pub proof fn law_number_text(n: u64)
    ensures
        number_text(n).len() > 0,
        forall|i: int|
            0 <= i < number_text(n).len() ==> '0' <= #[trigger] number_text(n)[i] <= '9',
        number_text(n)[0] == '0' ==> n == 0 && number_text(n).len() == 1,
        digits_value(number_text(n).map_values(|c: char| c as u8)) == n,
{
    lemma_decimal(n as nat);
    law_decimal(n as nat);
    assert forall|i: int| 0 <= i < number_text(n).len() implies '0' <= #[trigger] number_text(n)[i] <= '9' && number_text(n)[i] as u8 == decimal(n as nat)[i] by {
        assert(is_digit(decimal(n as nat)[i]));
    }
    assert(number_text(n).map_values(|c: char| c as u8) =~= decimal(n as nat));
}

} // verus!
