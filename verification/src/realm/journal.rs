//! Journal page detection from a document URI.

use vstd::prelude::*;
use vstd::string::StringSliceAdditionalSpecFns;

verus! {

/// Index of the last `/` in `u`, or -1.
pub open spec fn last_slash(u: Seq<u8>) -> int
    decreases u.len(),
{
    if u.len() == 0 {
        -1
    } else if u.last() == 47u8 {
        u.len() - 1
    } else {
        last_slash(u.drop_last())
    }
}

/// Whether `s` ends with `suffix`.
pub open spec fn has_suffix(s: Seq<u8>, suffix: Seq<u8>) -> bool {
    suffix.len() <= s.len() && s.subrange(s.len() - suffix.len(), s.len() as int) == suffix
}

/// `.md`
pub open spec fn md_ext() -> Seq<u8> {
    seq![46u8, 109u8, 100u8]
}

/// `.markdown`
pub open spec fn markdown_ext() -> Seq<u8> {
    seq![46u8, 109u8, 97u8, 114u8, 107u8, 100u8, 111u8, 119u8, 110u8]
}

/// The file name of `u` without its `.md` or `.markdown` extension; `None`
/// when it has neither.
pub open spec fn journal_stem(u: Seq<u8>) -> Option<Seq<u8>> {
    let name = u.subrange(last_slash(u) + 1, u.len() as int);
    if has_suffix(name, md_ext()) {
        Some(name.subrange(0, name.len() - 3))
    } else if has_suffix(name, markdown_ext()) {
        Some(name.subrange(0, name.len() - 9))
    } else {
        None
    }
}

/// Whether `b` is an ASCII digit.
pub open spec fn is_digit(b: u8) -> bool {
    48 <= b <= 57
}

/// The value of the digits `s[a..b]`.
pub open spec fn digits_val(s: Seq<u8>, a: int, b: int) -> int
    decreases b - a,
{
    if b <= a {
        0
    } else {
        digits_val(s, a, b - 1) * 10 + (s[b - 1] - 48)
    }
}

/// `s[a..b]` read as an unsigned integer: at least one byte, every one an
/// ASCII digit.
pub open spec fn parse_num(s: Seq<u8>, a: int, b: int) -> Option<int> {
    if a < b && (forall|k: int| a <= k < b ==> is_digit(#[trigger] s[k])) {
        Some(digits_val(s, a, b))
    } else {
        None
    }
}

/// The journal date that URI bytes `u` name: a file name `YYYY?MM?DD.md` (or
/// `.markdown`) whose two separators are both `_` or both `-`, with a year in
/// 1900..=2100, a month in 1..=12 and a day in 1..=31.
pub open spec fn journal_date_of(u: Seq<u8>) -> Option<(u16, u8, u8)> {
    match journal_stem(u) {
        None => None,
        Some(stem) => {
            if stem.len() != 10 || !(stem[4] == 95u8 || stem[4] == 45u8) || stem[7] != stem[4] {
                None
            } else {
                match (parse_num(stem, 0, 4), parse_num(stem, 5, 7), parse_num(stem, 8, 10)) {
                    (Some(y), Some(m), Some(d)) => if 1900 <= y <= 2100 && 1 <= m <= 12 && 1 <= d
                        <= 31 {
                        Some((y as u16, m as u8, d as u8))
                    } else {
                        None
                    },
                    _ => None,
                }
            }
        },
    }
}

/// Whether `s` ends with `suffix`.
fn ends_with_bytes(s: &[u8], suffix: &[u8]) -> (r: bool)
    ensures
        r == has_suffix(s@, suffix@),
{
    if suffix.len() > s.len() {
        return false;
    }
    let off = s.len() - suffix.len();
    let mut k: usize = 0;
    while k < suffix.len()
        invariant
            off + suffix.len() == s.len(),
            k <= suffix@.len(),
            forall|m: int| 0 <= m < k ==> s@[off + m] == suffix@[m],
        decreases suffix@.len() - k,
    {
        if s[off + k] != suffix[k] {
            assert(s@.subrange(off as int, s@.len() as int)[k as int] != suffix@[k as int]);
            return false;
        }
        k = k + 1;
    }
    assert(s@.subrange(off as int, s@.len() as int) =~= suffix@);
    true
}

/// `s[a..b]` read as an unsigned integer of at most four ASCII digits.
fn parse_small(s: &[u8], a: usize, b: usize) -> (r: Option<u16>)
    requires
        a <= b <= s@.len(),
        b - a <= 4,
    ensures
        match parse_num(s@, a as int, b as int) {
            Some(v) => r is Some && r->0 == v,
            None => r is None,
        },
{
    let d = a;
    if d >= b {
        return None;
    }
    let mut v: u16 = 0;
    let mut k = d;
    while k < b
        invariant
            d <= k <= b <= s@.len(),
            d < b,
            b - d <= 4,
            d == a,
            forall|m: int| d <= m < k ==> is_digit(#[trigger] s@[m]),
            v == digits_val(s@, d as int, k as int),
            k - d == 0 ==> v == 0,
            k - d == 1 ==> v <= 9,
            k - d == 2 ==> v <= 99,
            k - d == 3 ==> v <= 999,
            k - d == 4 ==> v <= 9999,
        decreases b - k,
    {
        let c = s[k];
        if c < 48 || c > 57 {
            return None;
        }
        v = v * 10 + (c - 48) as u16;
        k = k + 1;
    }
    Some(v)
}

/// Detect whether a URI names a journal page: a file name `YYYY_MM_DD.md` or
/// `YYYY-MM-DD.md` (or `.markdown`), in any directory. Returns the
/// `(year, month, day)` for a valid date and `None` otherwise.
pub fn detect_journal_date(uri: &str) -> (r: Option<(u16, u8, u8)>)
    ensures
        r == journal_date_of(uri.spec_bytes()),
{
    let u = uri.as_bytes();
    // The file name starts after the last '/'.
    let mut i = u.len();
    assert(u@.subrange(0, i as int) =~= u@);
    while i > 0 && u[i - 1] != 47
        invariant
            i <= u@.len(),
            last_slash(u@) == last_slash(u@.subrange(0, i as int)),
        decreases i,
    {
        assert(u@.subrange(0, i as int).drop_last() =~= u@.subrange(0, i - 1));
        i = i - 1;
    }
    let name = &u[i..u.len()];
    let md: [u8; 3] = [46, 109, 100];
    let markdown: [u8; 9] = [46, 109, 97, 114, 107, 100, 111, 119, 110];
    assert(md@ =~= md_ext());
    assert(markdown@ =~= markdown_ext());
    let stem = if ends_with_bytes(name, md.as_slice()) {
        &name[0..name.len() - 3]
    } else if ends_with_bytes(name, markdown.as_slice()) {
        &name[0..name.len() - 9]
    } else {
        return None;
    };
    if stem.len() != 10 {
        return None;
    }
    let sep = stem[4];
    if sep != 95 && sep != 45 {
        return None;
    }
    if stem[7] != sep {
        return None;
    }
    let y = match parse_small(stem, 0, 4) {
        Some(v) => v,
        None => {
            return None;
        },
    };
    let m = match parse_small(stem, 5, 7) {
        Some(v) => v,
        None => {
            return None;
        },
    };
    let d = match parse_small(stem, 8, 10) {
        Some(v) => v,
        None => {
            return None;
        },
    };
    if !(1900 <= y && y <= 2100) || !(1 <= m && m <= 12) || !(1 <= d && d <= 31) {
        return None;
    }
    Some((y, m as u8, d as u8))
}

/// A detected journal date is always a plausible calendar date: a year in
/// 1900..=2100, a month in 1..=12 and a day in 1..=31.
pub proof fn law_journal_date_in_range(u: Seq<u8>)
    ensures
        journal_date_of(u) matches Some((y, m, d)) ==> (1900 <= y <= 2100 && 1 <= m <= 12 && 1 <= d
            <= 31),
{
}

} // verus!
