//! Benchmark sampling configuration: what the sample-size and corpus-tier
//! settings select, given their raw values.

use vstd::prelude::*;

use crate::text::{chars_of, whitespace_mask, whitespace_of};

verus! {

/// The first index at or after `i` that is not whitespace (or the end).
pub open spec fn skip_ws(ws: Seq<bool>, i: int) -> int
    decreases ws.len() - i,
{
    if i >= ws.len() || !ws[i] {
        i
    } else {
        skip_ws(ws, i + 1)
    }
}

/// One past the last index before `j` that is not whitespace, down to `lo`.
pub open spec fn skip_ws_back(ws: Seq<bool>, lo: int, j: int) -> int
    decreases j - lo,
{
    if j <= lo || !ws[j - 1] {
        j
    } else {
        skip_ws_back(ws, lo, j - 1)
    }
}

/// `c` with ASCII uppercase letters lowered.
pub open spec fn ascii_lower(c: char) -> char {
    if 'A' <= c <= 'Z' {
        ((c as u32) + 32) as char
    } else {
        c
    }
}

/// `s` with surrounding whitespace (flagged by `ws`) removed and ASCII letters
/// lowered.
pub open spec fn normalized(s: Seq<char>, ws: Seq<bool>) -> Seq<char> {
    let a = skip_ws(ws, 0);
    let b = skip_ws_back(ws, a, s.len() as int);
    s.subrange(a, b).map_values(|c: char| ascii_lower(c))
}

/// The value of decimal digits `s[a..b]`.
pub open spec fn dec_value(s: Seq<char>, a: int, b: int) -> int
    decreases b - a,
{
    if b <= a {
        0
    } else {
        dec_value(s, a, b - 1) * 10 + (s[b - 1] as int - 48)
    }
}

/// `s` read as a `usize` the way `str::parse` reads one: an optional `+`, then
/// at least one ASCII digit, and a value that fits.
pub open spec fn parse_usize(s: Seq<char>) -> Option<usize> {
    let d: int = if s.len() > 0 && s[0] == '+' {
        1
    } else {
        0
    };
    if d < s.len() && (forall|k: int| d <= k < s.len() ==> '0' <= #[trigger] s[k] <= '9')
        && dec_value(s, d, s.len() as int) <= usize::MAX {
        Some(dec_value(s, d, s.len() as int) as usize)
    } else {
        None
    }
}

/// The sample size that a normalized sample setting selects: `light` 10,
/// `medium` 50, `heavy` 100, a number of at least 10 itself, anything else the
/// default; without a setting, 100 when the legacy heavy flag is set, else the
/// default.
pub open spec fn sample_size_of(v: Option<Seq<char>>, heavy_set: bool, default: usize) -> usize {
    match v {
        Some(x) => if x == "light"@ {
            10
        } else if x == "medium"@ {
            50
        } else if x == "heavy"@ {
            100
        } else {
            match parse_usize(x) {
                Some(n) => if n >= 10 {
                    n
                } else {
                    default
                },
                None => default,
            }
        },
        None => if heavy_set {
            100
        } else {
            default
        },
    }
}

/// The corpus sizes that a normalized tier setting selects; `medium` when
/// missing or unknown.
pub open spec fn doc_counts_of(v: Option<Seq<char>>) -> Seq<usize> {
    match v {
        Some(x) => if x == "light"@ {
            seq![100usize]
        } else if x == "heavy"@ {
            seq![100usize, 1000, 5000]
        } else if x == "extreme"@ {
            seq![100usize, 1000, 5000, 10000]
        } else {
            seq![100usize, 1000]
        },
        None => seq![100usize, 1000],
    }
}

/// Whether two character slices are equal.
fn chars_eq(a: &[char], b: &[char]) -> (r: bool)
    ensures
        r == (a@ == b@),
{
    if a.len() != b.len() {
        return false;
    }
    let mut i: usize = 0;
    while i < a.len()
        invariant
            a@.len() == b@.len(),
            i <= a@.len(),
            forall|k: int| 0 <= k < i ==> a@[k] == b@[k],
        decreases a@.len() - i,
    {
        if a[i] != b[i] {
            return false;
        }
        i = i + 1;
    }
    assert(a@ =~= b@);
    true
}

/// Remove surrounding whitespace (as `ws` flags it) and lower ASCII letters.
pub fn normalize_chars(s: &[char], ws: &[bool]) -> (r: Vec<char>)
    requires
        ws@.len() == s@.len(),
    ensures
        r@ == normalized(s@, ws@),
{
    let mut a: usize = 0;
    while a < ws.len() && ws[a]
        invariant
            a <= ws@.len(),
            skip_ws(ws@, 0) == skip_ws(ws@, a as int),
        decreases ws@.len() - a,
    {
        a = a + 1;
    }
    let mut b: usize = s.len();
    while b > a && ws[b - 1]
        invariant
            a <= b <= s@.len() == ws@.len(),
            skip_ws_back(ws@, a as int, s@.len() as int) == skip_ws_back(ws@, a as int, b as int),
        decreases b - a,
    {
        b = b - 1;
    }
    let mut out: Vec<char> = Vec::new();
    let mut k: usize = a;
    while k < b
        invariant
            a <= k <= b <= s@.len(),
            out@ =~= s@.subrange(a as int, k as int).map_values(|c: char| ascii_lower(c)),
        decreases b - k,
    {
        let c = s[k];
        let l = if 'A' <= c && c <= 'Z' {
            ((c as u8) + 32) as char
        } else {
            c
        };
        out.push(l);
        k = k + 1;
    }
    out
}

/// Read `s` as a `usize`.
fn parse_usize_exec(s: &[char]) -> (r: Option<usize>)
    ensures
        r == parse_usize(s@),
{
    let d: usize = if s.len() > 0 && s[0] == '+' {
        1
    } else {
        0
    };
    if d >= s.len() {
        return None;
    }
    let mut v: usize = 0;
    let mut k = d;
    while k < s.len()
        invariant
            d <= k <= s@.len(),
            d < s@.len(),
            d == (if s@.len() > 0 && s@[0] == '+' { 1int } else { 0int }),
            forall|m: int| d <= m < k ==> '0' <= #[trigger] s@[m] <= '9',
            v == dec_value(s@, d as int, k as int),
        decreases s@.len() - k,
    {
        let c = s[k];
        if c < '0' || c > '9' {
            return None;
        }
        let digit = (c as u32 - 48) as usize;
        if v > (usize::MAX - digit) / 10 {
            proof {
                lemma_dec_grows(s@, d as int, k + 1, s@.len() as int);
            }
            return None;
        }
        v = v * 10 + digit;
        k = k + 1;
    }
    Some(v)
}

/// Reading more digits never gives a smaller value.
proof fn lemma_dec_grows(s: Seq<char>, d: int, k: int, b: int)
    requires
        d <= k <= b,
        forall|m: int| d <= m < k ==> '0' <= #[trigger] s[m] <= '9',
    ensures
        (forall|m: int| d <= m < b ==> '0' <= #[trigger] s[m] <= '9') ==> dec_value(s, d, k)
            <= dec_value(s, d, b),
        dec_value(s, d, k) >= 0,
    decreases b - k + (k - d),
{
    if k > d {
        lemma_dec_grows(s, d, k - 1, k - 1);
    }
    if b > k && (forall|m: int| d <= m < b ==> '0' <= #[trigger] s[m] <= '9') {
        lemma_dec_grows(s, d, k, b - 1);
        lemma_dec_grows(s, d, b - 1, b - 1);
        assert('0' <= s[b - 1] <= '9');
    }
}

/// The sample size a normalized setting selects.
pub fn sample_size_from_normalized(v: Option<&[char]>, heavy_set: bool, default: usize) -> (r:
    usize)
    ensures
        r == sample_size_of(
            match v {
                Some(x) => Some(x@),
                None => None,
            },
            heavy_set,
            default,
        ),
{
    match v {
        Some(x) => {
            let light = chars_of("light");
            let medium = chars_of("medium");
            let heavy = chars_of("heavy");
            if chars_eq(x, light.as_slice()) {
                10
            } else if chars_eq(x, medium.as_slice()) {
                50
            } else if chars_eq(x, heavy.as_slice()) {
                100
            } else {
                match parse_usize_exec(x) {
                    Some(n) => if n >= 10 {
                        n
                    } else {
                        default
                    },
                    None => default,
                }
            }
        },
        None => if heavy_set {
            100
        } else {
            default
        },
    }
}

/// Resolve the benchmark sample size from the raw sample setting (if set) and
/// whether the legacy heavy flag is set.
pub fn sample_size_from(samples: Option<&str>, heavy_set: bool, default: usize) -> (r: usize)
    ensures
        r == sample_size_of(
            match samples {
                Some(s) => Some(normalized(s@, whitespace_of(s@))),
                None => None,
            },
            heavy_set,
            default,
        ),
{
    match samples {
        Some(s) => {
            let c = chars_of(s);
            let ws = whitespace_mask(c.as_slice());
            let n = normalize_chars(c.as_slice(), ws.as_slice());
            sample_size_from_normalized(Some(n.as_slice()), heavy_set, default)
        },
        None => sample_size_from_normalized(None, heavy_set, default),
    }
}

/// The corpus sizes a normalized tier setting selects.
pub fn doc_counts_from_normalized(v: Option<&[char]>) -> (r: Vec<usize>)
    ensures
        r@ == doc_counts_of(
            match v {
                Some(x) => Some(x@),
                None => None,
            },
        ),
{
    match v {
        Some(x) => {
            let light = chars_of("light");
            let heavy = chars_of("heavy");
            let extreme = chars_of("extreme");
            if chars_eq(x, light.as_slice()) {
                vec![100]
            } else if chars_eq(x, heavy.as_slice()) {
                vec![100, 1_000, 5_000]
            } else if chars_eq(x, extreme.as_slice()) {
                vec![100, 1_000, 5_000, 10_000]
            } else {
                vec![100, 1_000]
            }
        },
        None => vec![100, 1_000],
    }
}

/// Resolve the corpus sizes of scaling runs from the raw tier setting.
pub fn doc_counts_from(tier: Option<&str>) -> (r: Vec<usize>)
    ensures
        r@ == doc_counts_of(
            match tier {
                Some(s) => Some(normalized(s@, whitespace_of(s@))),
                None => None,
            },
        ),
{
    match tier {
        Some(s) => {
            let c = chars_of(s);
            let ws = whitespace_mask(c.as_slice());
            let n = normalize_chars(c.as_slice(), ws.as_slice());
            doc_counts_from_normalized(Some(n.as_slice()))
        },
        None => doc_counts_from_normalized(None),
    }
}

} // verus!
