//! Locating YAML frontmatter (`---` ... `---`) at the start of a document.

use vstd::prelude::*;
use vstd::string::StringSliceAdditionalSpecFns;
use vstd::utf8::*;

use crate::text::str_from_utf8;

verus! {

/// Whether `pat` occurs in `s` at `i`.
pub open spec fn bytes_at(s: Seq<u8>, i: int, pat: Seq<u8>) -> bool {
    0 <= i && i + pat.len() <= s.len() && s.subrange(i, i + pat.len()) == pat
}

/// The first `k >= i` with `pat` at `k`, or -1.
pub open spec fn first_at(s: Seq<u8>, pat: Seq<u8>, i: int) -> int
    decreases s.len() - i + 1,
{
    if i < 0 || i + pat.len() > s.len() {
        -1
    } else if bytes_at(s, i, pat) {
        i
    } else {
        first_at(s, pat, i + 1)
    }
}

/// Whether `s` ends with `pat`.
pub open spec fn ends_with(s: Seq<u8>, pat: Seq<u8>) -> bool {
    bytes_at(s, s.len() - pat.len(), pat)
}

/// `---`
pub open spec fn dashes() -> Seq<u8> {
    seq![45u8, 45u8, 45u8]
}

/// `---\n`
pub open spec fn dashes_lf() -> Seq<u8> {
    seq![45u8, 45u8, 45u8, 10u8]
}

/// `---\r\n`
pub open spec fn dashes_crlf() -> Seq<u8> {
    seq![45u8, 45u8, 45u8, 13u8, 10u8]
}

/// `\n---\n`
pub open spec fn close_lf() -> Seq<u8> {
    seq![10u8, 45u8, 45u8, 45u8, 10u8]
}

/// `\n---\r\n`
pub open spec fn close_crlf() -> Seq<u8> {
    seq![10u8, 45u8, 45u8, 45u8, 13u8, 10u8]
}

/// `\n---`
pub open spec fn eof_lf() -> Seq<u8> {
    seq![10u8, 45u8, 45u8, 45u8]
}

/// `\r\n---`
pub open spec fn eof_crlf() -> Seq<u8> {
    seq![13u8, 10u8, 45u8, 45u8, 45u8]
}

/// A candidate closing delimiter: position and length, where `pos` is -1 for none.
pub open spec fn candidate(pos: int, len: int) -> Option<(int, int)> {
    if pos < 0 {
        None
    } else {
        Some((pos, len))
    }
}

/// The earlier of two candidates; on a tie, the first.
pub open spec fn earlier(a: Option<(int, int)>, b: Option<(int, int)>) -> Option<(int, int)> {
    match (a, b) {
        (None, _) => b,
        (Some(_), None) => a,
        (Some(x), Some(y)) => if y.0 < x.0 {
            b
        } else {
            a
        },
    }
}

/// The closing delimiter of frontmatter whose body starts `rest`: its position
/// and length. An empty body (`rest` being the delimiter itself, or starting
/// with it and a newline) closes at 0; otherwise the earliest of `\n---\n`,
/// `\n---\r\n` and a final `\n---` / `\r\n---`.
pub open spec fn close_of(rest: Seq<u8>) -> Option<(int, int)> {
    if rest == dashes() || rest == dashes().push(13u8) {
        Some((0, rest.len() as int))
    } else if bytes_at(rest, 0, dashes_crlf()) {
        Some((0, 5))
    } else if bytes_at(rest, 0, dashes_lf()) {
        Some((0, 4))
    } else {
        let lf = candidate(first_at(rest, close_lf(), 0), 5);
        let crlf = candidate(first_at(rest, close_crlf(), 0), 6);
        let eof = if ends_with(rest, eof_crlf()) {
            Some((rest.len() - 5, 5))
        } else if ends_with(rest, eof_lf()) {
            Some((rest.len() - 4, 4))
        } else {
            None
        };
        earlier(earlier(lf, crlf), eof)
    }
}

/// The length of the opening delimiter at the start of `src` (`---\r\n` or
/// `---\n`), or 0 when there is none.
pub open spec fn open_len(src: Seq<u8>) -> int {
    if bytes_at(src, 0, dashes_crlf()) {
        5
    } else if bytes_at(src, 0, dashes_lf()) {
        4
    } else {
        0
    }
}

/// The byte offset where the frontmatter of `src` ends (after its closing
/// delimiter), or 0 when `src` has none.
pub open spec fn fm_end(src: Seq<u8>) -> int {
    let p = open_len(src);
    if p == 0 {
        0
    } else {
        match close_of(src.subrange(p, src.len() as int)) {
            Some((pos, len)) => p + pos + len,
            None => 0,
        }
    }
}

/// `src` with every byte of its frontmatter except `\n` and `\r` made a space.
pub open spec fn masked(src: Seq<u8>) -> Seq<u8> {
    Seq::new(
        src.len(),
        |i: int|
            if i < fm_end(src) && src[i] != 10u8 && src[i] != 13u8 {
                32u8
            } else {
                src[i]
            },
    )
}

/// Whether `pat` occurs in `s` at `i`.
fn has_at(s: &[u8], i: usize, pat: &[u8]) -> (r: bool)
    ensures
        r == bytes_at(s@, i as int, pat@),
{
    if i > s.len() || pat.len() > s.len() - i {
        return false;
    }
    let mut k: usize = 0;
    while k < pat.len()
        invariant
            i + pat.len() <= s.len(),
            k <= pat@.len(),
            forall|m: int| 0 <= m < k ==> s@[i + m] == pat@[m],
        decreases pat@.len() - k,
    {
        if s[i + k] != pat[k] {
            assert(s@.subrange(i as int, i + pat@.len())[k as int] != pat@[k as int]);
            return false;
        }
        k = k + 1;
    }
    assert(s@.subrange(i as int, i + pat@.len()) =~= pat@);
    true
}

/// The first occurrence of `pat` in `s`.
fn first_occurrence(s: &[u8], pat: &[u8]) -> (r: Option<usize>)
    ensures
        match r {
            Some(k) => first_at(s@, pat@, 0) == k,
            None => first_at(s@, pat@, 0) == -1,
        },
{
    let mut k: usize = 0;
    while k <= s.len() && pat.len() <= s.len() - k
        invariant
            k <= s@.len() + 1,
            first_at(s@, pat@, 0) == first_at(s@, pat@, k as int),
        decreases s@.len() + 1 - k,
    {
        if has_at(s, k, pat) {
            return Some(k);
        }
        assert(k < s@.len()) by {
            if k == s@.len() {
                assert(s@.subrange(k as int, k as int) =~= pat@);
            }
        }
        k = k + 1;
    }
    None
}

/// The earlier of two candidates; on a tie, the first.
fn earlier_exec(a: Option<(usize, usize)>, b: Option<(usize, usize)>) -> (r: Option<(usize, usize)>)
    ensures
        opt_pair(r) == earlier(opt_pair(a), opt_pair(b)),
{
    match (a, b) {
        (None, _) => b,
        (Some(_), None) => a,
        (Some(x), Some(y)) => if y.0 < x.0 {
            b
        } else {
            a
        },
    }
}

/// An optional pair of offsets as integers.
pub open spec fn opt_pair(o: Option<(usize, usize)>) -> Option<(int, int)> {
    match o {
        Some(p) => Some((p.0 as int, p.1 as int)),
        None => None,
    }
}

/// Find the closing delimiter of frontmatter whose body starts `rest`:
/// `(position, delimiter length)`, the earliest one where several occur.
pub fn find_frontmatter_close(rest: &[u8]) -> (r: Option<(usize, usize)>)
    ensures
        opt_pair(r) == close_of(rest@),
{
    let d3: [u8; 3] = [45, 45, 45];
    let d3r: [u8; 4] = [45, 45, 45, 13];
    let dcrlf: [u8; 5] = [45, 45, 45, 13, 10];
    let dlf: [u8; 4] = [45, 45, 45, 10];
    let clf: [u8; 5] = [10, 45, 45, 45, 10];
    let ccrlf: [u8; 6] = [10, 45, 45, 45, 13, 10];
    let elf: [u8; 4] = [10, 45, 45, 45];
    let ecrlf: [u8; 5] = [13, 10, 45, 45, 45];
    assert(d3@ =~= dashes());
    assert(d3r@ =~= dashes().push(13u8));
    assert(dcrlf@ =~= dashes_crlf());
    assert(dlf@ =~= dashes_lf());
    assert(clf@ =~= close_lf());
    assert(ccrlf@ =~= close_crlf());
    assert(elf@ =~= eof_lf());
    assert(ecrlf@ =~= eof_crlf());
    assert(rest@.len() == 3 ==> rest@.subrange(0, 3) =~= rest@);
    assert(rest@.len() == 4 ==> rest@.subrange(0, 4) =~= rest@);
    if (rest.len() == 3 && has_at(rest, 0, d3.as_slice())) || (rest.len() == 4 && has_at(
        rest,
        0,
        d3r.as_slice(),
    )) {
        return Some((0, rest.len()));
    }
    assert(rest@ != dashes() && rest@ != dashes().push(13u8));
    if has_at(rest, 0, dcrlf.as_slice()) {
        return Some((0, 5));
    }
    if has_at(rest, 0, dlf.as_slice()) {
        return Some((0, 4));
    }
    let lf = match first_occurrence(rest, clf.as_slice()) {
        Some(p) => Some((p, 5usize)),
        None => None,
    };
    let crlf = match first_occurrence(rest, ccrlf.as_slice()) {
        Some(p) => Some((p, 6usize)),
        None => None,
    };
    let eof = if rest.len() >= 5 && has_at(rest, rest.len() - 5, ecrlf.as_slice()) {
        Some((rest.len() - 5, 5usize))
    } else if rest.len() >= 4 && has_at(rest, rest.len() - 4, elf.as_slice()) {
        Some((rest.len() - 4, 4usize))
    } else {
        None
    };
    earlier_exec(earlier_exec(lf, crlf), eof)
}

/// The length of the opening delimiter at the start of `src`, or 0.
fn opening_len(src: &[u8]) -> (p: usize)
    ensures
        p == open_len(src@),
{
    let dcrlf: [u8; 5] = [45, 45, 45, 13, 10];
    let dlf: [u8; 4] = [45, 45, 45, 10];
    assert(dcrlf@ =~= dashes_crlf());
    assert(dlf@ =~= dashes_lf());
    if has_at(src, 0, dcrlf.as_slice()) {
        5
    } else if has_at(src, 0, dlf.as_slice()) {
        4
    } else {
        0
    }
}

/// The frontmatter end of `src` as bytes.
fn frontmatter_end_of(src: &[u8]) -> (r: usize)
    ensures
        r == fm_end(src@),
        r <= src@.len(),
{
    let p = opening_len(src);
    if p == 0 {
        return 0;
    }
    let rest = &src[p..src.len()];
    match find_frontmatter_close(rest) {
        Some((pos, len)) => {
            proof {
                lemma_close_in_bounds(rest@);
            }
            p + pos + len
        },
        None => 0,
    }
}

/// A closing delimiter lies inside the text it was found in.
proof fn lemma_close_in_bounds(rest: Seq<u8>)
    ensures
        close_of(rest) matches Some((pos, len)) ==> 0 <= pos && pos + len <= rest.len(),
{
    lemma_first_at_bounds(rest, close_lf(), 0);
    lemma_first_at_bounds(rest, close_crlf(), 0);
}

/// `first_at` finds an occurrence that fits.
proof fn lemma_first_at_bounds(s: Seq<u8>, pat: Seq<u8>, i: int)
    ensures
        first_at(s, pat, i) >= 0 ==> i <= first_at(s, pat, i) && first_at(s, pat, i) + pat.len()
            <= s.len(),
    decreases s.len() - i + 1,
{
    if !(i < 0 || i + pat.len() > s.len()) && !bytes_at(s, i, pat) {
        lemma_first_at_bounds(s, pat, i + 1);
    }
}

/// `first_at` finds an occurrence of the pattern.
proof fn lemma_first_at_found(s: Seq<u8>, pat: Seq<u8>, i: int)
    ensures
        first_at(s, pat, i) >= 0 ==> bytes_at(s, first_at(s, pat, i), pat),
    decreases s.len() - i + 1,
{
    if !(i < 0 || i + pat.len() > s.len()) && !bytes_at(s, i, pat) {
        lemma_first_at_found(s, pat, i + 1);
    }
}

/// The frontmatter ends at 0 (there is none), at the end of the text, or just
/// after a `\n`; when there is one, the text starts with `---\n` or `---\r\n`.
pub proof fn law_fm_end_shape(src: Seq<u8>)
    ensures
        0 <= fm_end(src) <= src.len(),
        fm_end(src) == 0 || fm_end(src) == src.len() || src[fm_end(src) - 1] == 10u8,
        fm_end(src) > 0 ==> open_len(src) > 0,
{
    let p = open_len(src);
    if p != 0 {
        let rest = src.subrange(p, src.len() as int);
        lemma_close_in_bounds(rest);
        lemma_first_at_found(rest, close_lf(), 0);
        lemma_first_at_found(rest, close_crlf(), 0);
        let lfp = first_at(rest, close_lf(), 0);
        let crp = first_at(rest, close_crlf(), 0);
        if lfp >= 0 {
            assert(rest.subrange(lfp, lfp + 5)[4] == 10u8);
        }
        if crp >= 0 {
            assert(rest.subrange(crp, crp + 6)[5] == 10u8);
        }
        if bytes_at(rest, 0, dashes_crlf()) {
            assert(rest.subrange(0, 5)[4] == 10u8);
        }
        if bytes_at(rest, 0, dashes_lf()) {
            assert(rest.subrange(0, 4)[3] == 10u8);
        }
    }
}

/// Masking the frontmatter of valid UTF-8 gives valid UTF-8: the masked part
/// becomes ASCII, and the rest starts after a `\n`, on a character boundary.
proof fn lemma_masked_valid(src: Seq<u8>)
    requires
        valid_utf8(src),
    ensures
        valid_utf8(masked(src)),
{
    law_fm_end_shape(src);
    let e = fm_end(src);
    let m = masked(src);
    assert forall|i: int| 0 <= 0 <= i < e <= m.len() implies #[trigger] is_leading_byte_width_1(
        m[i],
    ) by {
        if src[i] != 10u8 && src[i] != 13u8 {
            assert(m[i] == 32u8);
        } else {
            assert(m[i] == src[i]);
        }
    }
    assert(m.subrange(0, 0) =~= Seq::<u8>::empty());
    assert(valid_utf8(Seq::<u8>::empty()));
    partial_valid_utf8_extend_ascii_block(m, 0, e);
    if e == m.len() {
        assert(m.subrange(0, e) =~= m);
    } else if e == 0 {
        assert(m =~= src);
    } else {
        // The byte before the rest is `\n`: the rest is what follows that
        // one-byte character.
        is_char_boundary_iff_not_is_continuation_byte(src, e - 1);
        valid_utf8_split(src, e - 1);
        let tail = src.subrange(e - 1, src.len() as int);
        assert(tail[0] == 10u8);
        assert(valid_utf8(pop_first_scalar(tail)));
        assert(pop_first_scalar(tail) =~= src.subrange(e, src.len() as int));
        assert(m.subrange(e, m.len() as int) =~= src.subrange(e, src.len() as int));
        valid_utf8_concat(m.subrange(0, e), m.subrange(e, m.len() as int));
        assert(m.subrange(0, e) + m.subrange(e, m.len() as int) =~= m);
    }
}

/// Return the byte offset where the frontmatter region ends (exclusive), or 0
/// when `source` has none.
pub fn frontmatter_byte_end(source: &str) -> (r: usize)
    ensures
        r == fm_end(source.spec_bytes()),
{
    frontmatter_end_of(source.as_bytes())
}

/// Mask YAML frontmatter: every byte of the frontmatter block except `\n` and
/// `\r` becomes a space, keeping line counts and byte offsets. The source is
/// returned unchanged when it has no frontmatter.
pub fn mask_frontmatter(source: &str) -> (r: String)
    ensures
        encode_utf8(r@) == masked(source.spec_bytes()),
{
    proof {
        encode_utf8_valid_utf8(source@);
        lemma_masked_valid(source.spec_bytes());
    }
    let src = source.as_bytes();
    let end = frontmatter_end_of(src);
    let mut bytes: Vec<u8> = Vec::new();
    let mut i: usize = 0;
    while i < src.len()
        invariant
            i <= src@.len(),
            src@ == source.spec_bytes(),
            end == fm_end(src@),
            bytes@ =~= masked(src@).subrange(0, i as int),
        decreases src@.len() - i,
    {
        let b = src[i];
        if i < end && b != 10 && b != 13 {
            bytes.push(32);
        } else {
            bytes.push(b);
        }
        i = i + 1;
    }
    assert(bytes@ =~= masked(src@));
    match str_from_utf8(bytes.as_slice()) {
        Some(s) => s.to_owned(),
        None => source.to_owned(),
    }
}

/// `first_at` finds the first occurrence: no occurrence lies before it.
proof fn lemma_first_at_first(s: Seq<u8>, pat: Seq<u8>, i: int, q: int)
    requires
        0 <= i <= q,
        bytes_at(s, q, pat),
    ensures
        0 <= first_at(s, pat, i) <= q,
    decreases q - i,
{
    if !bytes_at(s, i, pat) {
        lemma_first_at_first(s, pat, i + 1, q);
    }
}

/// Masking keeps the layout: the same length, every `\n` and `\r` where it
/// was and nowhere else, and every byte after the frontmatter unchanged.
pub proof fn law_mask_keeps_layout(src: Seq<u8>)
    ensures
        masked(src).len() == src.len(),
        forall|i: int|
            0 <= i < src.len() ==> ((#[trigger] masked(src)[i] == 10u8) <==> src[i] == 10u8)
                && (masked(src)[i] == 13u8 <==> src[i] == 13u8),
        forall|i: int| fm_end(src) <= i < src.len() ==> #[trigger] masked(src)[i] == src[i],
{
}

/// Text without frontmatter is left as it is.
pub proof fn law_mask_without_frontmatter(src: Seq<u8>)
    requires
        fm_end(src) == 0,
    ensures
        masked(src) == src,
{
    assert(masked(src) =~= src);
}

/// The closing delimiter found is the earliest one: no `\n---\n` or
/// `\n---\r\n` occurs before it.
pub proof fn law_close_is_earliest(rest: Seq<u8>, q: int)
    requires
        close_of(rest) is Some,
        bytes_at(rest, q, close_lf()) || bytes_at(rest, q, close_crlf()),
    ensures
        close_of(rest) matches Some((pos, len)) ==> pos <= q,
{
    if bytes_at(rest, q, close_lf()) {
        lemma_first_at_first(rest, close_lf(), 0, q);
    }
    if bytes_at(rest, q, close_crlf()) {
        lemma_first_at_first(rest, close_crlf(), 0, q);
    }
}

} // verus!
