//! Small verified string utilities.

use vstd::prelude::*;
use vstd::string::StringSliceAdditionalSpecFns;
use vstd::utf8::{encode_utf8_decode_utf8, valid_utf8};

verus! {

/// Whether two byte slices hold the same bytes.
pub fn bytes_eq(a: &[u8], b: &[u8]) -> (r: bool)
    ensures
        r == (a@ == b@),
{
    if a.len() != b.len() {
        return false;
    }
    let mut i: usize = 0;
    while i < a.len()
        invariant
            a@.len() == b@.len(),
            i <= a@.len(),
            forall|k: int| 0 <= k < i ==> a@[k] == b@[k],
        decreases a@.len() - i,
    {
        if a[i] != b[i] {
            return false;
        }
        i = i + 1;
    }
    assert(a@ =~= b@);
    true
}

/// Whether two strings are equal.
pub fn str_eq(a: &str, b: &str) -> (r: bool)
    ensures
        r == (a@ == b@),
{
    let r = bytes_eq(a.as_bytes(), b.as_bytes());
    proof {
        encode_utf8_decode_utf8(a@);
        encode_utf8_decode_utf8(b@);
    }
    r
}

/// The characters of a string, in order.
pub fn chars_of(s: &str) -> (r: Vec<char>)
    ensures
        r@ == s@,
{
    let mut out: Vec<char> = Vec::new();
    for c in it: s.chars()
        invariant
            out@ == it.seq().subrange(0, it.index() as int),
    {
        out.push(c);
    }
    out
}

/// Append one character to a string.
///
/// Trusted: `String::push` appends `c` to the end of the string.
#[verifier::external_body]
pub(crate) fn push_char(s: &mut String, c: char)
    ensures
        final(s)@ == old(s)@.push(c),
{
    s.push(c);
}

/// A string holding the given characters.
pub fn string_of_chars(v: &[char]) -> (r: String)
    ensures
        r@ == v@,
{
    let mut out = String::new();
    let mut i: usize = 0;
    while i < v.len()
        invariant
            i <= v@.len(),
            out@ == v@.subrange(0, i as int),
        decreases v@.len() - i,
    {
        push_char(&mut out, v[i]);
        assert(v@.subrange(0, i + 1) =~= v@.subrange(0, i as int).push(v@[i as int]));
        i = i + 1;
    }
    assert(v@.subrange(0, v@.len() as int) =~= v@);
    out
}

/// The ASCII digit for `d < 10`.
pub open spec fn digit_char(d: nat) -> char {
    ((d + 48) as u8) as char
}

/// The decimal notation of `n`, without leading zeros.
pub open spec fn decimal(n: nat) -> Seq<char>
    decreases n,
{
    if n < 10 {
        seq![digit_char(n)]
    } else {
        decimal(n / 10).push(digit_char(n % 10))
    }
}

/// The decimal notation of `n`.
pub fn decimal_string(n: usize) -> (r: String)
    ensures
        r@ == decimal(n as nat),
{
    // Digits from the least significant one.
    let mut rev: Vec<char> = Vec::new();
    let mut m: usize = n;
    while m >= 10
        invariant
            decimal(n as nat) == decimal(m as nat) + rev@.reverse(),
        decreases m,
    {
        let d = (m % 10) as u8;
        let ghost old_rev = rev@;
        rev.push((d + 48) as char);
        assert(rev@.reverse() =~= seq![digit_char((m % 10) as nat)] + old_rev.reverse());
        assert(decimal(m as nat) == decimal((m / 10) as nat).push(digit_char((m % 10) as nat)));
        assert(decimal(m as nat) + old_rev.reverse() =~= decimal((m / 10) as nat) + rev@.reverse());
        m = m / 10;
    }
    let ghost old_rev = rev@;
    rev.push(((m as u8) + 48) as char);
    assert(rev@.reverse() =~= seq![digit_char(m as nat)] + old_rev.reverse());
    let mut digits: Vec<char> = Vec::new();
    let mut i: usize = rev.len();
    while i > 0
        invariant
            i <= rev@.len(),
            digits@ == rev@.subrange(i as int, rev@.len() as int).reverse(),
        decreases i,
    {
        digits.push(rev[i - 1]);
        assert(rev@.subrange(i - 1, rev@.len() as int).reverse() =~= rev@.subrange(
            i as int,
            rev@.len() as int,
        ).reverse().push(rev@[i - 1]));
        i = i - 1;
    }
    assert(rev@.subrange(0, rev@.len() as int) =~= rev@);
    assert(digits@ =~= decimal(n as nat));
    string_of_chars(digits.as_slice())
}

/// Convert bytes to a string slice.
///
/// Trusted: `std::str::from_utf8` returns `Ok` exactly when the bytes are valid
/// UTF-8 (as `vstd::utf8::valid_utf8` defines it), and the string it returns
/// consists of those same bytes.
#[verifier::external_body]
pub(crate) fn str_from_utf8(v: &[u8]) -> (r: Option<&str>)
    ensures
        r is Some <==> valid_utf8(v@),
        r matches Some(s) ==> s.spec_bytes() == v@,
{
    std::str::from_utf8(v).ok()
}

/// Whether `c` has the Unicode `White_Space` property, which
/// `char::is_whitespace` tests: the 25 code points U+0009..=U+000D, U+0020,
/// U+0085, U+00A0, U+1680, U+2000..=U+200A, U+2028, U+2029, U+202F, U+205F
/// and U+3000.
pub open spec fn char_is_whitespace(c: char) -> bool {
    let v = c as u32;
    ||| 0x09 <= v <= 0x0d
    ||| v == 0x20
    ||| v == 0x85
    ||| v == 0xa0
    ||| v == 0x1680
    ||| 0x2000 <= v <= 0x200a
    ||| v == 0x2028
    ||| v == 0x2029
    ||| v == 0x202f
    ||| v == 0x205f
    ||| v == 0x3000
}

/// Whether `c` has the Unicode `White_Space` property.
pub fn is_whitespace(c: char) -> (r: bool)
    ensures
        r == char_is_whitespace(c),
{
    let v = c as u32;
    (0x09 <= v && v <= 0x0d) || v == 0x20 || v == 0x85 || v == 0xa0 || v == 0x1680 || (0x2000 <= v && v
        <= 0x200a) || v == 0x2028 || v == 0x2029 || v == 0x202f || v == 0x205f || v == 0x3000
}

/// The whitespace flag of each character of `s`.
pub open spec fn whitespace_of(s: Seq<char>) -> Seq<bool> {
    Seq::new(s.len(), |i: int| char_is_whitespace(s[i]))
}

/// The whitespace flag of each of `chars`.
pub fn whitespace_mask(chars: &[char]) -> (r: Vec<bool>)
    ensures
        r@ == whitespace_of(chars@),
{
    let mut ws: Vec<bool> = Vec::new();
    let mut i: usize = 0;
    while i < chars.len()
        invariant
            i <= chars@.len(),
            ws@ =~= whitespace_of(chars@).subrange(0, i as int),
        decreases chars@.len() - i,
    {
        ws.push(is_whitespace(chars[i]));
        i = i + 1;
    }
    assert(ws@ =~= whitespace_of(chars@));
    ws
}

} // verus!
