//! File stems of document URIs, by which wiki links name pages: the file
//! name of a `file://` URI without its extension, in ASCII lowercase.

use vstd::prelude::*;

use crate::text::{chars_of, string_of_chars};

verus! {

/// Index of the last `c` in `s`, or -1.
pub open spec fn last_index_of(s: Seq<char>, c: char) -> int
    decreases s.len(),
{
    if s.len() == 0 {
        -1
    } else if s.last() == c {
        s.len() - 1
    } else {
        last_index_of(s.drop_last(), c)
    }
}

/// The file name of a path: what follows its last `/`.
pub open spec fn file_name_of(u: Seq<char>) -> Seq<char> {
    u.subrange(last_index_of(u, '/') + 1, u.len() as int)
}

/// The stem of a file name: the part before its last `.`, unless that dot
/// opens the name (or there is none), in which case the whole name.
pub open spec fn stem_part(n: Seq<char>) -> Seq<char> {
    if last_index_of(n, '.') > 0 {
        n.subrange(0, last_index_of(n, '.'))
    } else {
        n
    }
}

/// The ASCII lowercase of a character: `A`..=`Z` become `a`..=`z`.
pub open spec fn lower_ascii_char(c: char) -> char {
    if 'A' <= c <= 'Z' {
        ((c as u8) + 32) as u8 as char
    } else {
        c
    }
}

/// `s` with its ASCII uppercase letters lowercased, as `str::to_ascii_lowercase` leaves it.
pub open spec fn ascii_lower(s: Seq<char>) -> Seq<char> {
    s.map_values(|c: char| lower_ascii_char(c))
}

/// The `file://` scheme prefix.
pub open spec fn file_scheme() -> Seq<char> {
    seq!['f', 'i', 'l', 'e', ':', '/', '/']
}

/// The stem by which a document URI is found: for a `file://` URI with a
/// non-empty stem, that stem in ASCII lowercase; otherwise none.
pub open spec fn uri_stem(u: Seq<char>) -> Option<Seq<char>> {
    if u.len() >= 7 && u.subrange(0, 7) == file_scheme() && stem_part(file_name_of(u)).len() > 0 {
        Some(ascii_lower(stem_part(file_name_of(u))))
    } else {
        None
    }
}

/// `last_index_of` is -1 or the position of the last `c`.
pub proof fn lemma_last_index_of(s: Seq<char>, c: char)
    ensures
        -1 <= last_index_of(s, c) < s.len(),
        last_index_of(s, c) >= 0 ==> s[last_index_of(s, c)] == c,
        forall|j: int| last_index_of(s, c) < j < s.len() ==> s[j] != c,
    decreases s.len(),
{
    if s.len() > 0 && s.last() != c {
        lemma_last_index_of(s.drop_last(), c);
        assert forall|j: int| last_index_of(s, c) < j < s.len() implies s[j] != c by {
            if j < s.len() - 1 {
                assert(s[j] == s.drop_last()[j]);
            }
        }
    }
}

/// Index of the last `c` in `s[..end]`, or -1.
fn last_index(s: &[char], end: usize, c: char) -> (r: Option<usize>)
    requires
        end <= s@.len(),
    ensures
        match r {
            Some(i) => i < end && i as int == last_index_of(s@.subrange(0, end as int), c),
            None => last_index_of(s@.subrange(0, end as int), c) == -1,
        },
{
    let mut i = end;
    while i > 0 && s[i - 1] != c
        invariant
            i <= end <= s@.len(),
            last_index_of(s@.subrange(0, end as int), c) == last_index_of(s@.subrange(0, i as int), c),
        decreases i,
    {
        assert(s@.subrange(0, i as int).drop_last() =~= s@.subrange(0, i - 1));
        i = i - 1;
    }
    if i == 0 {
        None
    } else {
        Some(i - 1)
    }
}

/// `s` in ASCII lowercase.
pub fn ascii_lowercase(s: &str) -> (r: String)
    ensures
        r@ == ascii_lower(s@),
{
    let cs = chars_of(s);
    let mut out: Vec<char> = Vec::new();
    let mut i: usize = 0;
    while i < cs.len()
        invariant
            cs@ == s@,
            i <= cs@.len(),
            out@ == ascii_lower(cs@.subrange(0, i as int)),
        decreases cs@.len() - i,
    {
        let c = cs[i];
        let l = if 'A' <= c && c <= 'Z' {
            ((c as u8) + 32) as char
        } else {
            c
        };
        assert(l == lower_ascii_char(c));
        out.push(l);
        assert(ascii_lower(cs@.subrange(0, i + 1)) =~= ascii_lower(cs@.subrange(0, i as int)).push(l));
        i = i + 1;
    }
    assert(cs@.subrange(0, cs@.len() as int) =~= cs@);
    string_of_chars(out.as_slice())
}

/// The stem by which a document URI is found, if any (see `uri_stem`).
pub fn stem_of(uri: &str) -> (r: Option<String>)
    ensures
        match r {
            Some(st) => uri_stem(uri@) == Some(st@),
            None => uri_stem(uri@) is None,
        },
{
    let u = chars_of(uri);
    let n = u.len();
    let scheme: [char; 7] = ['f', 'i', 'l', 'e', ':', '/', '/'];
    assert(scheme@ =~= file_scheme());
    if n < 7 {
        return None;
    }
    let mut k: usize = 0;
    while k < 7
        invariant
            k <= 7 <= n == u@.len(),
            u@ == uri@,
            scheme@ == file_scheme(),
            forall|m: int| 0 <= m < k ==> u@[m] == scheme@[m],
        decreases 7 - k,
    {
        if u[k] != scheme[k] {
            assert(u@.subrange(0, 7)[k as int] != file_scheme()[k as int]);
            assert(u@.subrange(0, 7) != file_scheme());
            return None;
        }
        k = k + 1;
    }
    assert(u@.subrange(0, 7) =~= file_scheme());
    assert(u@.subrange(0, n as int) =~= u@);
    let start: usize = match last_index(&u, n, '/') {
        Some(i) => i + 1,
        None => 0,
    };
    proof {
        lemma_last_index_of(u@, '/');
    }
    let ghost name = file_name_of(u@);
    assert(name =~= u@.subrange(start as int, n as int));
    let name_v = copy_range(&u, start, n);
    assert(name_v@ == name);
    assert(name_v@.subrange(0, name_v@.len() as int) =~= name_v@);
    let end: usize = match last_index(&name_v, name_v.len(), '.') {
        Some(d) => if d > 0 {
            d
        } else {
            name_v.len()
        },
        None => name_v.len(),
    };
    proof {
        lemma_last_index_of(name, '.');
    }
    if end == 0 {
        return None;
    }
    let stem_v = copy_range(&name_v, 0, end);
    assert(stem_v@ =~= stem_part(name));
    let stem = string_of_chars(stem_v.as_slice());
    Some(ascii_lowercase(stem.as_str()))
}

/// A copy of `s[a..b]`.
fn copy_range(s: &[char], a: usize, b: usize) -> (r: Vec<char>)
    requires
        a <= b <= s@.len(),
    ensures
        r@ == s@.subrange(a as int, b as int),
{
    let mut out: Vec<char> = Vec::new();
    let mut i = a;
    while i < b
        invariant
            a <= i <= b <= s@.len(),
            out@ == s@.subrange(a as int, i as int),
        decreases b - i,
    {
        out.push(s[i]);
        assert(s@.subrange(a as int, i + 1) =~= s@.subrange(a as int, i as int).push(s@[i as int]));
        i = i + 1;
    }
    out
}

} // verus!
