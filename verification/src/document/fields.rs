//! The fields of YAML frontmatter: the `key: value` lines between the opening
//! `---` line and the closing delimiter, with `[a, b]` values read as lists,
//! and the aliases that typed frontmatter values give.

use vstd::prelude::*;

use crate::bench::report::{find_in, find_in_exec, lines_from, matches_at};
use crate::text::{char_is_whitespace, chars_of, is_whitespace, str_eq, string_of_chars};

use super::types::{FrontmatterOwnedEntry, FrontmatterValueOwned};

verus! {

broadcast use vstd::seq_lib::group_seq_properties;

/// `s` without leading whitespace.
pub open spec fn trim_start(s: Seq<char>) -> Seq<char>
    decreases s.len(),
{
    if s.len() > 0 && char_is_whitespace(s[0]) {
        trim_start(s.drop_first())
    } else {
        s
    }
}

/// `s` without trailing whitespace.
pub open spec fn trim_end(s: Seq<char>) -> Seq<char>
    decreases s.len(),
{
    if s.len() > 0 && char_is_whitespace(s.last()) {
        trim_end(s.drop_last())
    } else {
        s
    }
}

/// `s` without leading and trailing whitespace, as `str::trim` leaves it.
pub open spec fn trim(s: Seq<char>) -> Seq<char> {
    trim_end(trim_start(s))
}

/// Whether `rest` ends with `pat`.
pub open spec fn ends_with_chars(rest: Seq<char>, pat: Seq<char>) -> bool {
    matches_at(rest, rest.len() - pat.len(), pat)
}

/// The smaller of two positions, where -1 stands for none.
pub open spec fn first_of(a: int, b: int) -> int {
    if a < 0 {
        b
    } else if b < 0 || a <= b {
        a
    } else {
        b
    }
}

/// Where the frontmatter body `rest` ends: at 0 for an empty body (`rest`
/// being `---`, `---\r`, or starting with `---\r\n` or `---\n`); otherwise at
/// the earliest of `\n---\n`, `\n---\r\n` and a final `\r\n---` or `\n---`;
/// -1 when it does not end.
pub open spec fn body_end(rest: Seq<char>) -> int {
    if rest == seq!['-', '-', '-'] || rest == seq!['-', '-', '-', '\r'] || matches_at(rest, 0, seq!['-', '-', '-', '\r', '\n'])
        || matches_at(rest, 0, seq!['-', '-', '-', '\n']) {
        0
    } else {
        let lf = find_in(rest, seq!['\n', '-', '-', '-', '\n'], 0, rest.len() as int);
        let crlf = find_in(rest, seq!['\n', '-', '-', '-', '\r', '\n'], 0, rest.len() as int);
        let eof = if ends_with_chars(rest, seq!['\r', '\n', '-', '-', '-']) {
            rest.len() - 5
        } else if ends_with_chars(rest, seq!['\n', '-', '-', '-']) {
            rest.len() - 4
        } else {
            -1
        };
        first_of(first_of(lf, crlf), eof)
    }
}

/// The frontmatter body of `src`: what follows an opening `---\r\n` or
/// `---\n` line up to where the body ends; `None` without both.
pub open spec fn yaml_text(src: Seq<char>) -> Option<Seq<char>> {
    let p = if matches_at(src, 0, seq!['-', '-', '-', '\r', '\n']) {
        5int
    } else if matches_at(src, 0, seq!['-', '-', '-', '\n']) {
        4int
    } else {
        0int
    };
    if p == 0 {
        None
    } else {
        let rest = src.subrange(p, src.len() as int);
        let e = body_end(rest);
        if e >= 0 {
            Some(rest.subrange(0, e))
        } else {
            None
        }
    }
}

/// The raw value of a field: one scalar, or the items of a `[...]` list.
pub enum FieldValue {
    /// A scalar, trimmed, as written.
    Scalar(Seq<char>),
    /// The items of a list, each trimmed.
    List(Seq<Seq<char>>),
}

/// The pieces of `s` between commas, empty ones included.
pub open spec fn comma_pieces(s: Seq<char>) -> Seq<Seq<char>>
    decreases s.len(),
{
    if s.len() == 0 {
        seq![Seq::empty()]
    } else if s.last() == ',' {
        comma_pieces(s.drop_last()).push(Seq::empty())
    } else {
        let p = comma_pieces(s.drop_last());
        p.update(p.len() - 1, p.last().push(s.last()))
    }
}

/// The pieces, trimmed, the empty ones left out.
pub open spec fn kept_items(pieces: Seq<Seq<char>>) -> Seq<Seq<char>>
    decreases pieces.len(),
{
    if pieces.len() == 0 {
        Seq::empty()
    } else if trim(pieces.last()).len() > 0 {
        kept_items(pieces.drop_last()).push(trim(pieces.last()))
    } else {
        kept_items(pieces.drop_last())
    }
}

/// The items of a list body.
pub open spec fn list_items(s: Seq<char>) -> Seq<Seq<char>> {
    kept_items(comma_pieces(s))
}

/// The field of one line: the trimmed text before its first `:` as key (the
/// line is no field without a `:` or with an empty key) and the trimmed rest
/// as value, a list when it starts with `[` and ends with `]`.
pub open spec fn field_of(line: Seq<char>) -> Option<(Seq<char>, FieldValue)> {
    let c = find_in(line, seq![':'], 0, line.len() as int);
    if c < 0 {
        None
    } else {
        let key = trim(line.subrange(0, c));
        let v = trim(line.subrange(c + 1, line.len() as int));
        if key.len() == 0 {
            None
        } else if v.len() > 0 && v[0] == '[' && v.last() == ']' {
            Some((key, FieldValue::List(list_items(v.subrange(1, v.len() - 1)))))
        } else {
            Some((key, FieldValue::Scalar(v)))
        }
    }
}

/// The fields of the given lines of `t`, in order.
pub open spec fn line_fields(t: Seq<char>, lines: Seq<(int, int)>) -> Seq<(Seq<char>, FieldValue)>
    decreases lines.len(),
{
    if lines.len() == 0 {
        Seq::empty()
    } else {
        let l = lines.last();
        match field_of(t.subrange(l.0, l.1)) {
            Some(f) => line_fields(t, lines.drop_last()).push(f),
            None => line_fields(t, lines.drop_last()),
        }
    }
}

/// The fields of the frontmatter of `src`, in order; none without frontmatter.
pub open spec fn frontmatter_fields_of(src: Seq<char>) -> Seq<(Seq<char>, FieldValue)> {
    match yaml_text(src) {
        Some(y) => line_fields(y, lines_from(y, 0, 0)),
        None => Seq::empty(),
    }
}

/// The raw value of a frontmatter field.
#[derive(Debug)]
pub enum FrontmatterRaw {
    /// A scalar, trimmed, as written.
    Scalar(String),
    /// The items of a `[...]` list, each trimmed, empty ones left out.
    List(Vec<String>),
}

/// A frontmatter field: a key and its raw value.
#[derive(Debug)]
pub struct FrontmatterField {
    /// The key.
    pub key: String,
    /// The raw value.
    pub value: FrontmatterRaw,
}

impl View for FrontmatterRaw {
    type V = FieldValue;

    open spec fn view(&self) -> FieldValue {
        match self {
            FrontmatterRaw::Scalar(s) => FieldValue::Scalar(s@),
            FrontmatterRaw::List(v) => FieldValue::List(v@.map_values(|x: String| x@)),
        }
    }
}

/// The views of fields.
pub open spec fn field_views(v: Seq<FrontmatterField>) -> Seq<(Seq<char>, FieldValue)> {
    v.map_values(|f: FrontmatterField| (f.key@, f.value@))
}

/// A search finds a match within its bounds, or -1; it finds `from` itself
/// exactly when the pattern fits there and matches.
proof fn lemma_find_in(t: Seq<char>, pat: Seq<char>, from: int, end: int)
    requires
        0 <= from,
    ensures
        find_in(t, pat, from, end) == -1 || (from <= find_in(t, pat, from, end) && find_in(t, pat, from, end)
            + pat.len() <= end && matches_at(t, find_in(t, pat, from, end), pat)),
        find_in(t, pat, from, end) == from <==> (from + pat.len() <= end && matches_at(t, from, pat)),
    decreases end - from + 1,
{
    if from + pat.len() <= end && !matches_at(t, from, pat) {
        lemma_find_in(t, pat, from + 1, end);
    }
}

/// A search from `from` up to the first `:` at `c` stops there.
proof fn lemma_first_colon(line: Seq<char>, c: int, from: int)
    requires
        0 <= from <= c < line.len(),
        line[c] == ':',
        forall|j: int| 0 <= j < c ==> line[j] != ':',
    ensures
        find_in(line, seq![':'], from, line.len() as int) == c,
    decreases c - from,
{
    if from < c {
        assert(!matches_at(line, from, seq![':'])) by {
            if matches_at(line, from, seq![':']) {
                assert(line.subrange(from, from + 1)[0] == line[from]);
            }
        }
        lemma_first_colon(line, c, from + 1);
    } else {
        assert(line.subrange(c, c + 1) =~= seq![':']);
    }
}

/// Every line with a `:` whose text before the first `:` is not blank is a
/// field keyed by that text, trimmed, whatever follows the `:`; when what
/// follows is blank, the value is the empty scalar.
pub proof fn law_keyed_line_is_a_field(line: Seq<char>, c: int)
    requires
        0 <= c < line.len(),
        line[c] == ':',
        forall|j: int| 0 <= j < c ==> line[j] != ':',
        trim(line.subrange(0, c)).len() > 0,
    ensures
        field_of(line) is Some,
        field_of(line)->Some_0.0 == trim(line.subrange(0, c)),
        trim(line.subrange(c + 1, line.len() as int)).len() == 0 ==> field_of(line) == Some(
            (trim(line.subrange(0, c)), FieldValue::Scalar(Seq::empty())),
        ),
{
    lemma_first_colon(line, c, 0);
}

/// The bounds of `s[a..b]` with leading and trailing whitespace left out.
pub(crate) fn trim_bounds(s: &[char], a: usize, b: usize) -> (r: (usize, usize))
    requires
        a <= b <= s@.len(),
    ensures
        a <= r.0 <= r.1 <= b,
        s@.subrange(r.0 as int, r.1 as int) == trim(s@.subrange(a as int, b as int)),
{
    let mut x = a;
    while x < b && is_whitespace(s[x])
        invariant
            a <= x <= b <= s@.len(),
            trim_start(s@.subrange(a as int, b as int)) == trim_start(s@.subrange(x as int, b as int)),
        decreases b - x,
    {
        assert(s@.subrange(x as int, b as int).drop_first() =~= s@.subrange(x + 1, b as int));
        x = x + 1;
    }
    assert(trim_start(s@.subrange(x as int, b as int)) == s@.subrange(x as int, b as int)) by {
        if x < b {
            assert(s@.subrange(x as int, b as int)[0] == s@[x as int]);
        }
    }
    let mut y = b;
    while y > x && is_whitespace(s[y - 1])
        invariant
            a <= x <= y <= b <= s@.len(),
            trim_end(s@.subrange(x as int, b as int)) == trim_end(s@.subrange(x as int, y as int)),
        decreases y - x,
    {
        assert(s@.subrange(x as int, y as int).drop_last() =~= s@.subrange(x as int, y - 1));
        y = y - 1;
    }
    assert(trim_end(s@.subrange(x as int, y as int)) == s@.subrange(x as int, y as int)) by {
        if y > x {
            assert(s@.subrange(x as int, y as int).last() == s@[y - 1]);
        }
    }
    (x, y)
}

/// The pieces of a comma list always hold at least one piece.
pub(crate) proof fn lemma_comma_pieces_len(s: Seq<char>)
    ensures
        comma_pieces(s).len() >= 1,
    decreases s.len(),
{
    if s.len() > 0 {
        lemma_comma_pieces_len(s.drop_last());
    }
}

/// The items of the list body `s[a..b]`.
fn list_items_exec(s: &[char], a: usize, b: usize) -> (r: Vec<String>)
    requires
        a <= b <= s@.len(),
    ensures
        r@.map_values(|x: String| x@) == list_items(s@.subrange(a as int, b as int)),
{
    let ghost body = s@.subrange(a as int, b as int);
    let ghost mut done: Seq<Seq<char>> = Seq::empty();
    let mut out: Vec<String> = Vec::new();
    let mut cur = a;
    let mut i = a;
    assert(body.subrange(0, 0) =~= Seq::<char>::empty());
    assert(s@.subrange(a as int, a as int) =~= Seq::<char>::empty());
    assert(comma_pieces(body.subrange(0, 0)) =~= seq![s@.subrange(a as int, a as int)]);
    while i < b
        invariant
            a <= cur <= i <= b <= s@.len(),
            body == s@.subrange(a as int, b as int),
            comma_pieces(body.subrange(0, i - a)) == done.push(s@.subrange(cur as int, i as int)),
            out@.map_values(|x: String| x@) == kept_items(done),
        decreases b - i,
    {
        let ghost pre = body.subrange(0, i - a);
        assert(body.subrange(0, i + 1 - a).drop_last() =~= pre);
        assert(body.subrange(0, i + 1 - a).last() == s@[i as int]);
        if s[i] == ',' {
            let (x, y) = trim_bounds(s, cur, i);
            let ghost piece = s@.subrange(cur as int, i as int);
            assert(done.push(piece).drop_last() =~= done);
            if x < y {
                let ghost before = out@;
                out.push(string_of_chars(&s[x..y]));
                assert(out@.map_values(|x: String| x@) =~= before.map_values(|x: String| x@).push(trim(piece)));
            }
            proof {
                assert(s@.subrange(i + 1, i + 1) =~= Seq::<char>::empty());
                assert(comma_pieces(body.subrange(0, i + 1 - a)) == comma_pieces(pre).push(Seq::empty()));
                done = done.push(piece);
                assert(comma_pieces(body.subrange(0, i + 1 - a)) =~= done.push(s@.subrange(i + 1, i + 1)));
            }
            cur = i + 1;
        } else {
            proof {
                assert(s@.subrange(cur as int, i + 1) =~= s@.subrange(cur as int, i as int).push(s@[i as int]));
                lemma_comma_pieces_len(pre);
                let p0 = comma_pieces(pre);
                assert(p0 == done.push(s@.subrange(cur as int, i as int)));
                assert(comma_pieces(body.subrange(0, i + 1 - a)) == p0.update(p0.len() - 1, p0.last().push(s@[i as int])));
                assert(comma_pieces(body.subrange(0, i + 1 - a)) =~= done.push(s@.subrange(cur as int, i + 1)));
            }
        }
        i = i + 1;
    }
    assert(body.subrange(0, b - a) =~= body);
    let (x, y) = trim_bounds(s, cur, b);
    let ghost piece = s@.subrange(cur as int, b as int);
    if x < y {
        let ghost before = out@;
        out.push(string_of_chars(&s[x..y]));
        assert(out@.map_values(|x: String| x@) =~= before.map_values(|x: String| x@).push(trim(piece)));
    }
    assert(done.push(piece).drop_last() =~= done);
    out
}

/// The field of one line.
fn field_of_line(line: &[char]) -> (r: Option<FrontmatterField>)
    ensures
        match r {
            Some(f) => field_of(line@) == Some((f.key@, f.value@)),
            None => field_of(line@) is None,
        },
{
    let colon: [char; 1] = [':'];
    assert(colon@ =~= seq![':']);
    let c = match find_in_exec(line, &colon, 0, line.len()) {
        Some(c) => c,
        None => {
            return None;
        },
    };
    let (ka, kb) = trim_bounds(line, 0, c);
    if ka == kb {
        return None;
    }
    let (va, vb) = trim_bounds(line, c + 1, line.len());
    let key = string_of_chars(&line[ka..kb]);
    let ghost v = line@.subrange(va as int, vb as int);
    if va < vb && line[va] == '[' && line[vb - 1] == ']' {
        assert(v[0] == line@[va as int] && v.last() == line@[vb - 1]);
        assert(va + 1 < vb);
        let items = list_items_exec(line, va + 1, vb - 1);
        assert(v.subrange(1, v.len() - 1) =~= line@.subrange(va + 1, vb - 1));
        Some(FrontmatterField { key, value: FrontmatterRaw::List(items) })
    } else {
        proof {
            if v.len() > 0 {
                assert(v[0] == line@[va as int] && v.last() == line@[vb - 1]);
            }
        }
        Some(FrontmatterField { key, value: FrontmatterRaw::Scalar(string_of_chars(&line[va..vb])) })
    }
}

/// The fields of the lines of `t`.
fn fields_of_lines(t: &[char]) -> (r: Vec<FrontmatterField>)
    ensures
        field_views(r@) == line_fields(t@, lines_from(t@, 0, 0)),
{
    let ghost mut done: Seq<(int, int)> = Seq::empty();
    let mut out: Vec<FrontmatterField> = Vec::new();
    let mut start: usize = 0;
    let mut i: usize = 0;
    while i < t.len()
        invariant
            start <= i <= t@.len(),
            done + lines_from(t@, i as int, start as int) == lines_from(t@, 0, 0),
            field_views(out@) == line_fields(t@, done),
        decreases t@.len() - i,
    {
        if t[i] == '\n' {
            let e = if i > start && t[i - 1] == '\r' {
                i - 1
            } else {
                i
            };
            let ghost before = out@;
            match field_of_line(&t[start..e]) {
                Some(f) => {
                    out.push(f);
                },
                None => {},
            }
            proof {
                let l = (start as int, e as int);
                assert(done.push(l).drop_last() =~= done);
                assert(field_views(out@) =~= line_fields(t@, done.push(l)));
                assert(lines_from(t@, i as int, start as int) == seq![l] + lines_from(t@, i + 1, i + 1));
                assert(done.push(l) + lines_from(t@, i + 1, i + 1) =~= done + lines_from(t@, i as int, start as int));
                done = done.push(l);
            }
            start = i + 1;
        }
        i = i + 1;
    }
    if start < t.len() {
        let ghost l = (start as int, t@.len() as int);
        match field_of_line(&t[start..t.len()]) {
            Some(f) => {
                out.push(f);
            },
            None => {},
        }
        proof {
            assert(done.push(l).drop_last() =~= done);
            assert(done + seq![l] =~= done.push(l));
        }
    } else {
        assert(done + Seq::<(int, int)>::empty() =~= done);
    }
    out
}

/// A copy of `s[a..b]`.
fn copy_chars(s: &[char], a: usize, b: usize) -> (r: Vec<char>)
    requires
        a <= b <= s@.len(),
    ensures
        r@ == s@.subrange(a as int, b as int),
{
    let mut out: Vec<char> = Vec::new();
    let mut i = a;
    while i < b
        invariant
            a <= i <= b <= s@.len(),
            out@ == s@.subrange(a as int, i as int),
        decreases b - i,
    {
        out.push(s[i]);
        assert(s@.subrange(a as int, i + 1) =~= s@.subrange(a as int, i as int).push(s@[i as int]));
        i = i + 1;
    }
    out
}

/// Where the frontmatter body `t[p..]` ends, relative to `p`.
fn body_end_exec(t: &[char], p: usize) -> (r: Option<usize>)
    requires
        p <= t@.len(),
    ensures
        match r {
            Some(e) => body_end(t@.subrange(p as int, t@.len() as int)) == e && p + e <= t@.len(),
            None => body_end(t@.subrange(p as int, t@.len() as int)) < 0,
        },
{
    let rest = copy_chars(t, p, t.len());
    proof {
        assert(rest@ =~= t@.subrange(p as int, t@.len() as int));
    }
    let n = rest.len();
    let d3: [char; 3] = ['-', '-', '-'];
    let d3r: [char; 4] = ['-', '-', '-', '\r'];
    let dcrlf: [char; 5] = ['-', '-', '-', '\r', '\n'];
    let dlf: [char; 4] = ['-', '-', '-', '\n'];
    let clf: [char; 5] = ['\n', '-', '-', '-', '\n'];
    let ccrlf: [char; 6] = ['\n', '-', '-', '-', '\r', '\n'];
    let ecrlf: [char; 5] = ['\r', '\n', '-', '-', '-'];
    let elf: [char; 4] = ['\n', '-', '-', '-'];
    assert(d3@ =~= seq!['-', '-', '-']);
    assert(d3r@ =~= seq!['-', '-', '-', '\r']);
    assert(dcrlf@ =~= seq!['-', '-', '-', '\r', '\n']);
    assert(dlf@ =~= seq!['-', '-', '-', '\n']);
    assert(clf@ =~= seq!['\n', '-', '-', '-', '\n']);
    assert(ccrlf@ =~= seq!['\n', '-', '-', '-', '\r', '\n']);
    assert(ecrlf@ =~= seq!['\r', '\n', '-', '-', '-']);
    assert(elf@ =~= seq!['\n', '-', '-', '-']);
    let whole_d3 = n == 3 && find_in_exec(&rest, &d3, 0, n) == Some(0usize);
    let whole_d3r = n == 4 && find_in_exec(&rest, &d3r, 0, n) == Some(0usize);
    let starts_crlf = n >= 5 && find_in_exec(&rest, &dcrlf, 0, 5) == Some(0usize);
    let starts_lf = n >= 4 && find_in_exec(&rest, &dlf, 0, 4) == Some(0usize);
    proof {
        let r = rest@;
        if n == 3 {
            lemma_find_in(r, d3@, 0, 3);
            assert(matches_at(r, 0, d3@) <==> r =~= seq!['-', '-', '-']) by {
                assert(r.subrange(0, 3) =~= r);
            }
        }
        if n == 4 {
            lemma_find_in(r, d3r@, 0, 4);
            assert(matches_at(r, 0, d3r@) <==> r =~= seq!['-', '-', '-', '\r']) by {
                assert(r.subrange(0, 4) =~= r);
            }
        }
        if n >= 5 {
            lemma_find_in(r, dcrlf@, 0, 5);
        } else {
            assert(!matches_at(r, 0, dcrlf@));
        }
        if n >= 4 {
            lemma_find_in(r, dlf@, 0, 4);
        } else {
            assert(!matches_at(r, 0, dlf@));
        }
        if r =~= seq!['-', '-', '-'] {
            assert(n == 3);
        }
        if r =~= seq!['-', '-', '-', '\r'] {
            assert(n == 4);
        }
    }
    if whole_d3 || whole_d3r || starts_crlf || starts_lf {
        return Some(0);
    }
    let lf = find_in_exec(&rest, &clf, 0, n);
    let crlf = find_in_exec(&rest, &ccrlf, 0, n);
    let ends_crlf = n >= 5 && find_in_exec(&rest, &ecrlf, n - 5, n) == Some(n - 5);
    let ends_lf = n >= 4 && find_in_exec(&rest, &elf, n - 4, n) == Some(n - 4);
    proof {
        let r = rest@;
        if n >= 5 {
            lemma_find_in(r, ecrlf@, n - 5, n as int);
        } else {
            assert(!matches_at(r, r.len() - 5, ecrlf@));
        }
        if n >= 4 {
            lemma_find_in(r, elf@, n - 4, n as int);
        } else {
            assert(!matches_at(r, r.len() - 4, elf@));
        }
    }
    let eof: Option<usize> = if ends_crlf {
        Some(n - 5)
    } else if ends_lf {
        Some(n - 4)
    } else {
        None
    };
    first_opt(first_opt(lf, crlf), eof)
}

/// A position, or -1 for none.
pub open spec fn opt_pos(o: Option<usize>) -> int {
    match o {
        Some(k) => k as int,
        None => -1,
    }
}

/// The smaller of two positions, if any.
fn first_opt(a: Option<usize>, b: Option<usize>) -> (r: Option<usize>)
    ensures
        opt_pos(r) == first_of(opt_pos(a), opt_pos(b)),
{
    match (a, b) {
        (None, _) => b,
        (Some(_), None) => a,
        (Some(x), Some(y)) => if x <= y {
            a
        } else {
            b
        },
    }
}

/// The fields of the YAML frontmatter of `source`, in order: each line of the
/// body with a `:` and a non-empty key gives one. There are none when
/// `source` does not open with a `---` line or the body never closes.
pub fn frontmatter_fields(source: &str) -> (r: Vec<FrontmatterField>)
    ensures
        field_views(r@) == frontmatter_fields_of(source@),
{
    let t = chars_of(source);
    let dcrlf: [char; 5] = ['-', '-', '-', '\r', '\n'];
    let dlf: [char; 4] = ['-', '-', '-', '\n'];
    assert(dcrlf@ =~= seq!['-', '-', '-', '\r', '\n']);
    assert(dlf@ =~= seq!['-', '-', '-', '\n']);
    let n = t.len();
    let crlf = n >= 5 && find_in_exec(&t, &dcrlf, 0, 5) == Some(0usize);
    let lf = n >= 4 && find_in_exec(&t, &dlf, 0, 4) == Some(0usize);
    proof {
        if n >= 5 {
            lemma_find_in(t@, dcrlf@, 0, 5);
        } else {
            assert(!matches_at(t@, 0, dcrlf@));
        }
        if n >= 4 {
            lemma_find_in(t@, dlf@, 0, 4);
        } else {
            assert(!matches_at(t@, 0, dlf@));
        }
    }
    let p: usize = if crlf {
        5
    } else if lf {
        4
    } else {
        0
    };
    if p == 0 {
        let r: Vec<FrontmatterField> = Vec::new();
        assert(field_views(r@) =~= Seq::<(Seq<char>, FieldValue)>::empty());
        return r;
    }
    match body_end_exec(&t, p) {
        None => {
            let r: Vec<FrontmatterField> = Vec::new();
            assert(field_views(r@) =~= Seq::<(Seq<char>, FieldValue)>::empty());
            r
        },
        Some(e) => {
            let body = copy_chars(&t, p, p + e);
            proof {
                assert(body@ =~= t@.subrange(p as int, t@.len() as int).subrange(0, e as int));
            }
            fields_of_lines(&body)
        },
    }
}

/// The aliases a frontmatter value gives: a non-empty string, or the
/// non-empty strings of a list; nothing else.
pub open spec fn alias_views(v: FrontmatterValueOwned) -> Seq<Seq<char>> {
    match v {
        FrontmatterValueOwned::String(s) => if s@.len() > 0 {
            seq![s@]
        } else {
            Seq::empty()
        },
        FrontmatterValueOwned::List(items) => list_alias_views(items@),
        _ => Seq::empty(),
    }
}

/// The non-empty strings among list items, in order.
pub open spec fn list_alias_views(items: Seq<FrontmatterValueOwned>) -> Seq<Seq<char>>
    decreases items.len(),
{
    if items.len() == 0 {
        Seq::empty()
    } else {
        let prev = list_alias_views(items.drop_last());
        match items.last() {
            FrontmatterValueOwned::String(s) => if s@.len() > 0 {
                prev.push(s@)
            } else {
                prev
            },
            _ => prev,
        }
    }
}

/// The views of strings.
pub open spec fn string_views(v: Seq<String>) -> Seq<Seq<char>> {
    v.map_values(|s: String| s@)
}

/// Add the aliases a frontmatter value gives (see `alias_views`).
pub fn collect_alias_strings(value: &FrontmatterValueOwned, aliases: &mut Vec<String>)
    ensures
        string_views(final(aliases)@) == string_views(old(aliases)@) + alias_views(*value),
{
    let ghost a0 = string_views(aliases@);
    match value {
        FrontmatterValueOwned::String(s) => {
            if s.unicode_len() > 0 {
                aliases.push(s.clone());
                assert(string_views(aliases@) =~= a0.push(s@));
            } else {
                assert(string_views(aliases@) =~= a0 + Seq::<Seq<char>>::empty());
            }
        },
        FrontmatterValueOwned::List(items) => {
            let mut i: usize = 0;
            assert(items@.subrange(0, 0) =~= Seq::<FrontmatterValueOwned>::empty());
            assert(a0 + Seq::<Seq<char>>::empty() =~= a0);
            while i < items.len()
                invariant
                    i <= items@.len(),
                    string_views(aliases@) == a0 + list_alias_views(items@.subrange(0, i as int)),
                decreases items@.len() - i,
            {
                let ghost pre = items@.subrange(0, i as int);
                assert(items@.subrange(0, i + 1).drop_last() =~= pre);
                assert(items@.subrange(0, i + 1).last() == items@[i as int]);
                match &items[i] {
                    FrontmatterValueOwned::String(s) => {
                        if s.unicode_len() > 0 {
                            let ghost before = aliases@;
                            aliases.push(s.clone());
                            assert(string_views(aliases@) =~= string_views(before).push(s@));
                            assert(string_views(aliases@) =~= a0 + list_alias_views(pre).push(s@));
                        }
                    },
                    _ => {},
                }
                i = i + 1;
            }
            assert(items@.subrange(0, items@.len() as int) =~= items@);
        },
        _ => {
            assert(string_views(aliases@) =~= a0 + Seq::<Seq<char>>::empty());
        },
    }
}

/// The aliases of typed frontmatter fields: those the values of `aliases`
/// keys give, in order.
pub open spec fn field_aliases(fields: Seq<(String, FrontmatterValueOwned)>) -> Seq<Seq<char>>
    decreases fields.len(),
{
    if fields.len() == 0 {
        Seq::empty()
    } else if fields.last().0@ == seq!['a', 'l', 'i', 'a', 's', 'e', 's'] {
        field_aliases(fields.drop_last()) + alias_views(fields.last().1)
    } else {
        field_aliases(fields.drop_last())
    }
}

/// Frontmatter entries of typed fields, in order, with the aliases their
/// `aliases` fields give.
pub fn frontmatter_entries(fields: Vec<(String, FrontmatterValueOwned)>) -> (r: (
    Vec<FrontmatterOwnedEntry>,
    Vec<String>,
))
    ensures
        r.0@.len() == fields@.len(),
        forall|i: int| 0 <= i < fields@.len() ==> (#[trigger] r.0@[i]).key == fields@[i].0 && r.0@[i].value == fields@[i].1,
        string_views(r.1@) == field_aliases(fields@),
{
    let ghost all = fields@;
    let mut rest = fields;
    let mut items: Vec<(String, FrontmatterValueOwned)> = Vec::new();
    while rest.len() > 0
        invariant
            rest@ + items@.reverse() == all,
        decreases rest@.len(),
    {
        let x = rest.pop().unwrap();
        proof {
            assert(items@.push(x).reverse() =~= seq![x] + items@.reverse());
            assert(rest@ + items@.push(x).reverse() =~= all);
        }
        items.push(x);
    }
    assert(items@.reverse() =~= all);
    let mut entries: Vec<FrontmatterOwnedEntry> = Vec::new();
    let mut aliases: Vec<String> = Vec::new();
    let key_name = "aliases";
    proof {
        reveal_strlit("aliases");
    }
    assert(key_name@ =~= seq!['a', 'l', 'i', 'a', 's', 'e', 's']);
    while items.len() > 0
        invariant
            items@.len() <= all.len(),
            items@.reverse() == all.subrange(all.len() - items@.len(), all.len() as int),
            entries@.len() == all.len() - items@.len(),
            forall|i: int| 0 <= i < entries@.len() ==> (#[trigger] entries@[i]).key == all[i].0 && entries@[i].value == all[i].1,
            string_views(aliases@) == field_aliases(all.subrange(0, all.len() - items@.len())),
            key_name@ == seq!['a', 'l', 'i', 'a', 's', 'e', 's'],
        decreases items@.len(),
    {
        let ghost k = all.len() - items@.len();
        let ghost before = items@;
        let (key, value) = items.pop().unwrap();
        proof {
            assert(before == items@.push((key, value)));
            assert(before.reverse()[0] == (key, value));
            assert(all.subrange(k, all.len() as int)[0] == all[k]);
            assert(all[k] == (key, value));
            assert(all.subrange(0, k + 1).drop_last() =~= all.subrange(0, k));
            assert(all.subrange(0, k + 1).last() == all[k]);
            assert(items@.push((key, value)).reverse() =~= seq![(key, value)] + items@.reverse());
            assert((seq![(key, value)] + items@.reverse()).drop_first() =~= items@.reverse());
            assert(all.subrange(k, all.len() as int).drop_first() =~= all.subrange(k + 1, all.len() as int));
        }
        if str_eq(key.as_str(), key_name) {
            collect_alias_strings(&value, &mut aliases);
        }
        entries.push(FrontmatterOwnedEntry { key, value });
    }
    assert(all.subrange(0, all.len() as int) =~= all);
    (entries, aliases)
}

} // verus!
