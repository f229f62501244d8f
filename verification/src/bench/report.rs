//! Parsing of memory metrics out of benchmark output.

use vstd::prelude::*;

use crate::text::{chars_of, whitespace_mask, whitespace_of};

verus! {

/// Snapshot of memory-related benchmark metrics.
#[derive(Debug, Clone, PartialEq, Eq, Structural)]
pub struct MemorySnapshot {
    /// Heap allocation count from `alloc_count_index_100`.
    pub alloc_count: u64,
    /// Resident memory in MiB from `memory_after_index_100`.
    pub resident_mib: u64,
    /// Peak RSS in KB from `memory_after_index_100`.
    pub peak_rss_kb: u64,
}

impl Default for MemorySnapshot {
    fn default() -> (r: Self)
        ensures
            r == (MemorySnapshot { alloc_count: 0, resident_mib: 0, peak_rss_kb: 0 }),
    {
        MemorySnapshot { alloc_count: 0, resident_mib: 0, peak_rss_kb: 0 }
    }
}

/// The line ranges of `t[i..]`, given that the current line started at `start`:
/// lines end at `\n` (a `\r` just before it is dropped too); a last line
/// without `\n` keeps all its characters; no line follows a final `\n`.
pub open spec fn lines_from(t: Seq<char>, i: int, start: int) -> Seq<(int, int)>
    decreases t.len() - i,
{
    if i >= t.len() {
        if start < t.len() {
            seq![(start, t.len() as int)]
        } else {
            Seq::empty()
        }
    } else if t[i] == '\n' {
        let e = if i > start && t[i - 1] == '\r' {
            i - 1
        } else {
            i
        };
        seq![(start, e)] + lines_from(t, i + 1, i + 1)
    } else {
        lines_from(t, i + 1, start)
    }
}

/// Whether `pat` occurs in `t` at `i`.
pub open spec fn matches_at(t: Seq<char>, i: int, pat: Seq<char>) -> bool {
    0 <= i && i + pat.len() <= t.len() && t.subrange(i, i + pat.len()) == pat
}

/// The first `k` in `from..` with `pat` at `k`, ending by `end`; -1 if none.
pub open spec fn find_in(t: Seq<char>, pat: Seq<char>, from: int, end: int) -> int
    decreases end - from + 1,
{
    if from + pat.len() > end {
        -1
    } else if matches_at(t, from, pat) {
        from
    } else {
        find_in(t, pat, from + 1, end)
    }
}

/// The text between the first and the second occurrence of `pat` in `t[a..b]`
/// (to `b` when there is no second one); `None` when `pat` does not occur.
pub open spec fn second_piece(t: Seq<char>, pat: Seq<char>, a: int, b: int) -> Option<(int, int)> {
    let i = find_in(t, pat, a, b);
    if i < 0 {
        None
    } else {
        let j = find_in(t, pat, i + pat.len(), b);
        Some((i + pat.len(), if j < 0 { b } else { j }))
    }
}

/// The whitespace-separated tokens of `t[i..end]`, given that the current token
/// started at `cur` (-1 when between tokens).
pub open spec fn tokens_from(ws: Seq<bool>, i: int, end: int, cur: int) -> Seq<(int, int)>
    decreases end - i,
{
    if i >= end {
        if cur >= 0 {
            seq![(cur, end)]
        } else {
            Seq::empty()
        }
    } else if ws[i] {
        if cur >= 0 {
            seq![(cur, i)] + tokens_from(ws, i + 1, end, -1)
        } else {
            tokens_from(ws, i + 1, end, -1)
        }
    } else {
        tokens_from(ws, i + 1, end, if cur >= 0 { cur } else { i })
    }
}

/// The value of the decimal digits `t[a..b]`.
pub open spec fn digits_value(t: Seq<char>, a: int, b: int) -> int
    decreases b - a,
{
    if b <= a {
        0
    } else {
        digits_value(t, a, b - 1) * 10 + (t[b - 1] as int - 48)
    }
}

/// Whether `t[a..b]` holds ASCII digits only.
pub open spec fn all_digits(t: Seq<char>, a: int, b: int) -> bool {
    forall|k: int| a <= k < b ==> '0' <= #[trigger] t[k] <= '9'
}

/// `t[a..b]` read as a `u64` the way `u64::from_str` reads it: an optional
/// `+`, then at least one ASCII digit, and a value that fits.
pub open spec fn parse_u64(t: Seq<char>, a: int, b: int) -> Option<u64> {
    let d = if a < b && t[a] == '+' {
        a + 1
    } else {
        a
    };
    if d < b && all_digits(t, d, b) && digits_value(t, d, b) <= u64::MAX {
        Some(digits_value(t, d, b) as u64)
    } else {
        None
    }
}

/// The value of the first of `toks` that reads as a `u64`.
pub open spec fn first_parsed(t: Seq<char>, toks: Seq<(int, int)>) -> Option<u64>
    decreases toks.len(),
{
    if toks.len() == 0 {
        None
    } else {
        match parse_u64(t, toks[0].0, toks[0].1) {
            Some(v) => Some(v),
            None => first_parsed(t, toks.drop_first()),
        }
    }
}

/// The value of the first token of `t[a..b]`, if it reads as a `u64`.
pub open spec fn first_token_value(t: Seq<char>, ws: Seq<bool>, a: int, b: int) -> Option<u64> {
    let toks = tokens_from(ws, a, b, -1);
    if toks.len() == 0 {
        None
    } else {
        parse_u64(t, toks[0].0, toks[0].1)
    }
}

/// The value of the first token of `t[a..b]` that reads as a `u64`.
pub open spec fn any_token_value(t: Seq<char>, ws: Seq<bool>, a: int, b: int) -> Option<u64> {
    first_parsed(t, tokens_from(ws, a, b, -1))
}

/// Marker of the allocation-count line.
pub open spec fn alloc_marker() -> Seq<char> {
    "alloc_count_index_100:"@
}

/// Marker of the memory line.
pub open spec fn memory_marker() -> Seq<char> {
    "memory_after_index_100:"@
}

/// `v` where present, else `old`.
pub open spec fn or_keep(v: Option<u64>, old: u64) -> u64 {
    match v {
        Some(x) => x,
        None => old,
    }
}

/// The snapshot after reading line `t[a..b]` on top of `s`: a number right after
/// the allocation marker sets the allocation count; after the memory marker,
/// the first number before a comma sets the resident size and the first number
/// of the next comma-separated part sets the peak RSS.
pub open spec fn read_line(t: Seq<char>, ws: Seq<bool>, s: MemorySnapshot, a: int, b: int) -> MemorySnapshot {
    let s1 = match second_piece(t, alloc_marker(), a, b) {
        Some((ra, rb)) => MemorySnapshot {
            alloc_count: or_keep(first_token_value(t, ws, ra, rb), s.alloc_count),
            ..s
        },
        None => s,
    };
    match second_piece(t, memory_marker(), a, b) {
        Some((ra, rb)) => {
            let c1 = find_in(t, seq![','], ra, rb);
            let end0 = if c1 < 0 { rb } else { c1 };
            let s2 = MemorySnapshot {
                resident_mib: or_keep(any_token_value(t, ws, ra, end0), s1.resident_mib),
                ..s1
            };
            if c1 < 0 {
                s2
            } else {
                let c2 = find_in(t, seq![','], c1 + 1, rb);
                let end1 = if c2 < 0 { rb } else { c2 };
                MemorySnapshot {
                    peak_rss_kb: or_keep(any_token_value(t, ws, c1 + 1, end1), s2.peak_rss_kb),
                    ..s2
                }
            }
        },
        None => s1,
    }
}

/// The snapshot after reading `lines` in order on top of `s`.
pub open spec fn read_lines(t: Seq<char>, ws: Seq<bool>, s: MemorySnapshot, lines: Seq<(int, int)>) -> MemorySnapshot
    decreases lines.len(),
{
    if lines.len() == 0 {
        s
    } else {
        read_lines(t, ws, read_line(t, ws, s, lines[0].0, lines[0].1), lines.drop_first())
    }
}

/// The memory snapshot that benchmark output `t` (with whitespace flags `ws`)
/// reports: its lines read in order, from all zeros.
pub open spec fn memory_snapshot_of(t: Seq<char>, ws: Seq<bool>) -> MemorySnapshot {
    read_lines(
        t,
        ws,
        MemorySnapshot { alloc_count: 0, resident_mib: 0, peak_rss_kb: 0 },
        lines_from(t, 0, 0),
    )
}

/// Whether `pat` occurs in `t` at `i`.
pub(crate) fn chars_match_at(t: &[char], i: usize, pat: &[char]) -> (r: bool)
    requires
        i + pat.len() <= t.len(),
    ensures
        r == matches_at(t@, i as int, pat@),
{
    let mut k: usize = 0;
    while k < pat.len()
        invariant
            i + pat.len() <= t.len(),
            k <= pat@.len(),
            forall|m: int| 0 <= m < k ==> t@[i + m] == pat@[m],
        decreases pat@.len() - k,
    {
        if t[i + k] != pat[k] {
            assert(t@.subrange(i as int, i + pat@.len())[k as int] != pat@[k as int]);
            return false;
        }
        k = k + 1;
    }
    assert(t@.subrange(i as int, i + pat@.len()) =~= pat@);
    true
}

/// The first occurrence of `pat` in `t[from..end]`.
pub(crate) fn find_in_exec(t: &[char], pat: &[char], from: usize, end: usize) -> (r: Option<usize>)
    requires
        from <= end <= t.len(),
    ensures
        match r {
            Some(k) => find_in(t@, pat@, from as int, end as int) == k && from <= k && k
                + pat@.len() <= end,
            None => find_in(t@, pat@, from as int, end as int) == -1,
        },
{
    let mut k = from;
    while k <= end && pat.len() <= end - k
        invariant
            from <= k <= end + 1,
            end <= t.len(),
            find_in(t@, pat@, from as int, end as int) == find_in(t@, pat@, k as int, end as int),
        decreases end + 1 - k,
    {
        if chars_match_at(t, k, pat) {
            return Some(k);
        }
        assert(k < end) by {
            if k == end {
                assert(t@.subrange(k as int, k as int) =~= pat@);
            }
        }
        k = k + 1;
    }
    None
}

/// A run of digits has a value of at least zero.
proof fn lemma_digits_nonneg(t: Seq<char>, d: int, b: int)
    requires
        all_digits(t, d, b),
    ensures
        digits_value(t, d, b) >= 0,
    decreases b - d,
{
    if b > d {
        assert(all_digits(t, d, b - 1));
        lemma_digits_nonneg(t, d, b - 1);
        assert('0' <= t[b - 1] <= '9');
    }
}

/// Reading a longer run of digits never gives a smaller value.
proof fn lemma_digits_monotone(t: Seq<char>, d: int, k: int, b: int)
    requires
        d <= k <= b,
        all_digits(t, d, b),
    ensures
        digits_value(t, d, k) <= digits_value(t, d, b),
    decreases b - k,
{
    if k < b {
        assert(all_digits(t, d, b - 1));
        lemma_digits_monotone(t, d, k, b - 1);
        lemma_digits_nonneg(t, d, b - 1);
        assert('0' <= t[b - 1] <= '9');
    }
}

/// `t[a..b]` read as a `u64`.
fn parse_u64_exec(t: &[char], a: usize, b: usize) -> (r: Option<u64>)
    requires
        a <= b <= t@.len(),
    ensures
        r == parse_u64(t@, a as int, b as int),
{
    let d = if a < b && t[a] == '+' {
        a + 1
    } else {
        a
    };
    if d >= b {
        return None;
    }
    let mut v: u64 = 0;
    let mut k = d;
    while k < b
        invariant
            d <= k <= b <= t@.len(),
            d < b,
            d == (if a < b && t@[a as int] == '+' { a + 1 } else { a as int }),
            all_digits(t@, d as int, k as int),
            v == digits_value(t@, d as int, k as int),
        decreases b - k,
    {
        let c = t[k];
        if c < '0' || c > '9' {
            return None;
        }
        let digit = (c as u32 - 48) as u64;
        assert(all_digits(t@, d as int, k + 1));
        if v > (u64::MAX - digit) / 10 {
            proof {
                if all_digits(t@, d as int, b as int) {
                    lemma_digits_monotone(t@, d as int, k + 1, b as int);
                }
            }
            return None;
        }
        v = v * 10 + digit;
        k = k + 1;
    }
    Some(v)
}

/// The flag of a token start: -1 for none.
spec fn cur_of(c: Option<usize>) -> int {
    match c {
        Some(x) => x as int,
        None => -1,
    }
}

/// The value of the first token of `t[a..b]`, if it reads as a `u64`.
fn first_token_value_exec(t: &[char], ws: &[bool], a: usize, b: usize) -> (r: Option<u64>)
    requires
        a <= b <= t@.len(),
        ws@.len() == t@.len(),
    ensures
        r == first_token_value(t@, ws@, a as int, b as int),
{
    let mut i = a;
    let mut cur: Option<usize> = None;
    while i < b
        invariant
            a <= i <= b <= t@.len(),
            ws@.len() == t@.len(),
            match cur {
                Some(c) => a <= c < i,
                None => true,
            },
            tokens_from(ws@, a as int, b as int, -1) == tokens_from(ws@, i as int, b as int, cur_of(cur)),
        decreases b - i,
    {
        if ws[i] {
            if let Some(c) = cur {
                let ghost rest = tokens_from(ws@, i + 1, b as int, -1);
                assert((seq![(c as int, i as int)] + rest)[0] == (c as int, i as int));
                return parse_u64_exec(t, c, i);
            }
        } else if cur.is_none() {
            cur = Some(i);
        }
        i = i + 1;
    }
    match cur {
        Some(c) => parse_u64_exec(t, c, b),
        None => None,
    }
}

/// The value of the first token of `t[a..b]` that reads as a `u64`.
fn any_token_value_exec(t: &[char], ws: &[bool], a: usize, b: usize) -> (r: Option<u64>)
    requires
        a <= b <= t@.len(),
        ws@.len() == t@.len(),
    ensures
        r == any_token_value(t@, ws@, a as int, b as int),
{
    let mut i = a;
    let mut cur: Option<usize> = None;
    while i < b
        invariant
            a <= i <= b <= t@.len(),
            ws@.len() == t@.len(),
            match cur {
                Some(c) => a <= c < i,
                None => true,
            },
            any_token_value(t@, ws@, a as int, b as int) == first_parsed(
                t@,
                tokens_from(ws@, i as int, b as int, cur_of(cur)),
            ),
        decreases b - i,
    {
        if ws[i] {
            if let Some(c) = cur {
                let ghost rest = tokens_from(ws@, i + 1, b as int, -1);
                let ghost all = seq![(c as int, i as int)] + rest;
                assert(all[0] == (c as int, i as int));
                assert(all.drop_first() =~= rest);
                let p = parse_u64_exec(t, c, i);
                if p.is_some() {
                    return p;
                }
                cur = None;
            }
        } else if cur.is_none() {
            cur = Some(i);
        }
        i = i + 1;
    }
    match cur {
        Some(c) => {
            assert(seq![(c as int, b as int)][0] == (c as int, b as int));
            assert(seq![(c as int, b as int)].drop_first() =~= Seq::<(int, int)>::empty());
            assert(first_parsed(t@, Seq::<(int, int)>::empty()) == None::<u64>);
            assert(tokens_from(ws@, b as int, b as int, c as int) == seq![(c as int, b as int)]);
            parse_u64_exec(t, c, b)
        },
        None => None,
    }
}

/// Read one line `t[a..b]` on top of `s`.
fn read_line_exec(
    t: &[char],
    ws: &[bool],
    s: MemorySnapshot,
    a: usize,
    b: usize,
    alloc: &[char],
    mem: &[char],
) -> (r: MemorySnapshot)
    requires
        a <= b <= t@.len(),
        ws@.len() == t@.len(),
        alloc@ == alloc_marker(),
        mem@ == memory_marker(),
    ensures
        r == read_line(t@, ws@, s, a as int, b as int),
{
    let mut snap = s;
    if let Some(i) = find_in_exec(t, alloc, a, b) {
        let ra = i + alloc.len();
        let rb = match find_in_exec(t, alloc, ra, b) {
            Some(j) => j,
            None => b,
        };
        if let Some(v) = first_token_value_exec(t, ws, ra, rb) {
            snap.alloc_count = v;
        }
    }
    if let Some(i) = find_in_exec(t, mem, a, b) {
        let ra = i + mem.len();
        let rb = match find_in_exec(t, mem, ra, b) {
            Some(j) => j,
            None => b,
        };
        let comma = [','];
        assert(comma@ =~= seq![',']);
        let c1 = find_in_exec(t, comma.as_slice(), ra, rb);
        let end0 = match c1 {
            Some(c) => c,
            None => rb,
        };
        if let Some(v) = any_token_value_exec(t, ws, ra, end0) {
            snap.resident_mib = v;
        }
        if let Some(c) = c1 {
            let end1 = match find_in_exec(t, comma.as_slice(), c + 1, rb) {
                Some(j) => j,
                None => rb,
            };
            if let Some(v) = any_token_value_exec(t, ws, c + 1, end1) {
                snap.peak_rss_kb = v;
            }
        }
    }
    snap
}

/// Parse the memory metrics out of the characters of benchmark output, given
/// the whitespace flag of each character.
pub fn parse_memory_snapshot_chars(t: &[char], ws: &[bool]) -> (r: MemorySnapshot)
    requires
        ws@.len() == t@.len(),
    ensures
        r == memory_snapshot_of(t@, ws@),
{
    let alloc = chars_of("alloc_count_index_100:");
    let mem = chars_of("memory_after_index_100:");
    let mut snap = MemorySnapshot { alloc_count: 0, resident_mib: 0, peak_rss_kb: 0 };
    let mut start: usize = 0;
    let mut i: usize = 0;
    while i < t.len()
        invariant
            start <= i <= t@.len(),
            ws@.len() == t@.len(),
            alloc@ == alloc_marker(),
            mem@ == memory_marker(),
            memory_snapshot_of(t@, ws@) == read_lines(t@, ws@, snap, lines_from(t@, i as int, start as int)),
        decreases t@.len() - i,
    {
        if t[i] == '\n' {
            let e = if i > start && t[i - 1] == '\r' {
                i - 1
            } else {
                i
            };
            let ghost rest = lines_from(t@, i + 1, i + 1);
            let ghost all = seq![(start as int, e as int)] + rest;
            assert(all[0] == (start as int, e as int));
            assert(all.drop_first() =~= rest);
            snap = read_line_exec(t, ws, snap, start, e, alloc.as_slice(), mem.as_slice());
            start = i + 1;
        }
        i = i + 1;
    }
    if start < t.len() {
        assert(seq![(start as int, t@.len() as int)][0] == (start as int, t@.len() as int));
        assert(seq![(start as int, t@.len() as int)].drop_first() =~= Seq::<(int, int)>::empty());
        let ghost before = snap;
        snap = read_line_exec(t, ws, snap, start, t.len(), alloc.as_slice(), mem.as_slice());
        assert(read_lines(t@, ws@, snap, Seq::<(int, int)>::empty()) == snap);
        assert(lines_from(t@, t@.len() as int, start as int) == seq![(start as int, t@.len() as int)]);
    } else {
        assert(lines_from(t@, t@.len() as int, start as int) =~= Seq::<(int, int)>::empty());
    }
    snap
}

/// Parse memory snapshot metrics from benchmark output: the allocation count
/// after `alloc_count_index_100:`, and the resident size and peak RSS after
/// `memory_after_index_100:`; a metric that does not occur stays zero, and a
/// later line overrides an earlier one.
pub fn parse_memory_snapshot(output: &str) -> (r: MemorySnapshot)
    ensures
        r == memory_snapshot_of(output@, whitespace_of(output@)),
{
    let t = chars_of(output);
    let ws = whitespace_mask(t.as_slice());
    parse_memory_snapshot_chars(t.as_slice(), ws.as_slice())
}

} // verus!
