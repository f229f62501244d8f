//! Resolving a URL-style relative path against a base directory, on the
//! strings alone (no filesystem access): `/` separates components, `.` and
//! empty segments are skipped, and `..` drops the last component but never
//! climbs above the root.

use vstd::prelude::*;

use crate::text::{chars_of, string_of_chars};

use super::stem::{file_scheme, last_index_of};

verus! {

/// The pieces of `s` between its `/` separators, empty ones included.
pub open spec fn pieces(s: Seq<char>) -> Seq<Seq<char>>
    decreases s.len(),
{
    if s.len() == 0 {
        seq![Seq::empty()]
    } else if s.last() == '/' {
        pieces(s.drop_last()).push(Seq::empty())
    } else {
        let p = pieces(s.drop_last());
        p.update(p.len() - 1, p.last().push(s.last()))
    }
}

/// There is always at least one piece.
pub proof fn lemma_pieces_len(s: Seq<char>)
    ensures
        pieces(s).len() >= 1,
    decreases s.len(),
{
    if s.len() > 0 {
        lemma_pieces_len(s.drop_last());
    }
}

/// Whether a piece is empty or `.`, which name no component.
pub open spec fn is_skipped(p: Seq<char>) -> bool {
    p.len() == 0 || p == seq!['.']
}

/// The components of a base path: its pieces other than empty ones and `.`.
pub open spec fn components(ps: Seq<Seq<char>>) -> Seq<Seq<char>>
    decreases ps.len(),
{
    if ps.len() == 0 {
        Seq::empty()
    } else if is_skipped(ps.last()) {
        components(ps.drop_last())
    } else {
        components(ps.drop_last()).push(ps.last())
    }
}

/// One URL segment applied to a component list: empty and `.` do nothing,
/// `..` drops the last component if there is one, anything else is appended.
pub open spec fn apply_segment(c: Seq<Seq<char>>, s: Seq<char>) -> Seq<Seq<char>> {
    if is_skipped(s) {
        c
    } else if s == seq!['.', '.'] {
        if c.len() > 0 {
            c.drop_last()
        } else {
            c
        }
    } else {
        c.push(s)
    }
}

/// The URL segments applied in order.
pub open spec fn walk(c: Seq<Seq<char>>, segs: Seq<Seq<char>>) -> Seq<Seq<char>>
    decreases segs.len(),
{
    if segs.len() == 0 {
        c
    } else {
        apply_segment(walk(c, segs.drop_last()), segs.last())
    }
}

/// Components joined with `/`.
pub open spec fn joined(cs: Seq<Seq<char>>) -> Seq<char>
    decreases cs.len(),
{
    if cs.len() == 0 {
        Seq::empty()
    } else if cs.len() == 1 {
        cs[0]
    } else {
        joined(cs.drop_last()) + seq!['/'] + cs.last()
    }
}

/// `relative` resolved against `base`: absolute when `base` is, and made of
/// the base's components with each segment of `relative` applied in turn.
pub open spec fn resolved_path(base: Seq<char>, relative: Seq<char>) -> Seq<char> {
    let root: Seq<char> = if base.len() > 0 && base[0] == '/' {
        seq!['/']
    } else {
        Seq::empty()
    };
    root + joined(walk(components(pieces(base)), pieces(relative)))
}

/// The views of a list of character vectors.
pub open spec fn views(v: Seq<Vec<char>>) -> Seq<Seq<char>> {
    v.map_values(|x: Vec<char>| x@)
}

/// Split characters at each `/`.
fn split_pieces(s: &Vec<char>) -> (r: Vec<Vec<char>>)
    ensures
        views(r@) == pieces(s@),
{
    let mut done: Vec<Vec<char>> = Vec::new();
    let mut cur: Vec<char> = Vec::new();
    let mut i: usize = 0;
    proof {
        assert(s@.subrange(0, 0) =~= Seq::<char>::empty());
        assert(views(done@).push(cur@) =~= pieces(Seq::<char>::empty()));
    }
    while i < s.len()
        invariant
            i <= s@.len(),
            views(done@).push(cur@) == pieces(s@.subrange(0, i as int)),
        decreases s@.len() - i,
    {
        let c = s[i];
        let ghost pre = s@.subrange(0, i as int);
        proof {
            assert(s@.subrange(0, i + 1).drop_last() =~= pre);
            assert(s@.subrange(0, i + 1).last() == c);
            lemma_pieces_len(pre);
        }
        if c == '/' {
            let piece = cur;
            done.push(piece);
            cur = Vec::new();
            proof {
                assert(views(done@) =~= views(done@.drop_last()).push(piece@));
                assert(done@.drop_last() =~= done@.subrange(0, done@.len() - 1));
                assert(views(done@).push(cur@) =~= pieces(pre).push(Seq::empty()));
            }
        } else {
            let ghost before = cur@;
            cur.push(c);
            proof {
                assert(views(done@).push(cur@) =~= pieces(pre).update(
                    pieces(pre).len() - 1,
                    pieces(pre).last().push(c),
                ));
            }
        }
        i = i + 1;
    }
    proof {
        assert(s@.subrange(0, s@.len() as int) =~= s@);
    }
    done.push(cur);
    proof {
        assert(views(done@) =~= views(done@.drop_last()).push(done@.last()@));
    }
    done
}

/// Whether a character vector is empty or `.`.
fn skipped(p: &Vec<char>) -> (r: bool)
    ensures
        r == is_skipped(p@),
{
    if p.len() == 0 {
        true
    } else if p.len() == 1 && p[0] == '.' {
        assert(p@ =~= seq!['.']);
        true
    } else {
        proof {
            if p@ == seq!['.'] {
                assert(p@[0] == '.');
            }
        }
        false
    }
}

/// Whether a character vector is `..`.
fn is_parent(p: &Vec<char>) -> (r: bool)
    ensures
        r == (p@ == seq!['.', '.']),
{
    if p.len() == 2 && p[0] == '.' && p[1] == '.' {
        assert(p@ =~= seq!['.', '.']);
        true
    } else {
        proof {
            if p@ == seq!['.', '.'] {
                assert(p@[0] == '.' && p@[1] == '.');
            }
        }
        false
    }
}

/// Resolve a URL-style relative path against a base directory without
/// touching the filesystem. The result is absolute when the base is; `..`
/// never climbs above the root, so `"/vault"` and `"../../file.md"` give
/// `"/file.md"`.
pub fn resolve_relative_path(base_dir: &str, relative_url: &str) -> (r: String)
    ensures
        r@ == resolved_path(base_dir@, relative_url@),
{
    let b = chars_of(base_dir);
    let bp = split_pieces(&b);
    let mut comps: Vec<Vec<char>> = Vec::new();
    let mut i: usize = 0;
    proof {
        assert(views(bp@).subrange(0, 0) =~= Seq::<Seq<char>>::empty());
        assert(views(comps@) =~= Seq::<Seq<char>>::empty());
    }
    while i < bp.len()
        invariant
            i <= bp@.len(),
            views(comps@) == components(views(bp@).subrange(0, i as int)),
        decreases bp@.len() - i,
    {
        let ghost pre = views(bp@).subrange(0, i as int);
        proof {
            assert(views(bp@).subrange(0, i + 1).drop_last() =~= pre);
            assert(views(bp@).subrange(0, i + 1).last() == bp@[i as int]@);
        }
        if !skipped(&bp[i]) {
            comps.push(bp[i].clone());
            proof {
                assert(views(comps@) =~= views(comps@.drop_last()).push(bp@[i as int]@));
                assert(comps@.drop_last() =~= comps@.subrange(0, comps@.len() - 1));
            }
        }
        i = i + 1;
    }
    proof {
        assert(views(bp@).subrange(0, bp@.len() as int) =~= views(bp@));
    }
    let up = split_pieces(&chars_of(relative_url));
    let mut j: usize = 0;
    proof {
        assert(views(up@).subrange(0, 0) =~= Seq::<Seq<char>>::empty());
    }
    while j < up.len()
        invariant
            j <= up@.len(),
            views(comps@) == walk(components(pieces(base_dir@)), views(up@).subrange(0, j as int)),
        decreases up@.len() - j,
    {
        let ghost pre = views(up@).subrange(0, j as int);
        let ghost before = views(comps@);
        proof {
            assert(views(up@).subrange(0, j + 1).drop_last() =~= pre);
            assert(views(up@).subrange(0, j + 1).last() == up@[j as int]@);
        }
        let seg = &up[j];
        if skipped(seg) {
        } else if is_parent(seg) {
            if comps.len() > 0 {
                comps.pop();
                proof {
                    assert(views(comps@) =~= before.drop_last());
                }
            }
        } else {
            comps.push(seg.clone());
            proof {
                assert(views(comps@) =~= before.push(seg@));
            }
        }
        j = j + 1;
    }
    proof {
        assert(views(up@).subrange(0, up@.len() as int) =~= views(up@));
    }
    let mut out: Vec<char> = Vec::new();
    if b.len() > 0 && b[0] == '/' {
        out.push('/');
    }
    let ghost root = out@;
    let mut k: usize = 0;
    proof {
        assert(views(comps@).subrange(0, 0) =~= Seq::<Seq<char>>::empty());
        assert(out@ =~= root + joined(Seq::<Seq<char>>::empty()));
    }
    while k < comps.len()
        invariant
            k <= comps@.len(),
            out@ == root + joined(views(comps@).subrange(0, k as int)),
        decreases comps@.len() - k,
    {
        let ghost pre = views(comps@).subrange(0, k as int);
        let ghost before = out@;
        proof {
            assert(views(comps@).subrange(0, k + 1).drop_last() =~= pre);
            assert(views(comps@).subrange(0, k + 1).last() == comps@[k as int]@);
        }
        if k > 0 {
            out.push('/');
        }
        let c = &comps[k];
        let mut m: usize = 0;
        let ghost mid = out@;
        while m < c.len()
            invariant
                m <= c@.len(),
                out@ == mid + c@.subrange(0, m as int),
            decreases c@.len() - m,
        {
            out.push(c[m]);
            proof {
                assert(out@ =~= mid + c@.subrange(0, m + 1));
            }
            m = m + 1;
        }
        proof {
            assert(c@.subrange(0, c@.len() as int) =~= c@);
            if k == 0 {
                assert(views(comps@).subrange(0, k + 1) =~= seq![c@]);
                assert(out@ =~= root + joined(views(comps@).subrange(0, k + 1)));
            } else {
                assert(out@ =~= root + joined(views(comps@).subrange(0, k + 1)));
            }
        }
        k = k + 1;
    }
    proof {
        assert(views(comps@).subrange(0, comps@.len() as int) =~= views(comps@));
    }
    string_of_chars(out.as_slice())
}

/// The directory holding a path: what precedes its last `/`, the root `/`
/// when that is the only one, or nothing when it has none.
pub open spec fn parent_of(p: Seq<char>) -> Seq<char> {
    let i = last_index_of(p, '/');
    if i > 0 {
        p.subrange(0, i)
    } else if i == 0 {
        seq!['/']
    } else {
        Seq::empty()
    }
}

/// The URI a relative link `url` in document `from` points to: for a
/// `file://` URI, `url` resolved against the directory of its path.
pub open spec fn linked_uri(from: Seq<char>, url: Seq<char>) -> Option<Seq<char>> {
    if from.len() >= 7 && from.subrange(0, 7) == file_scheme() {
        Some(file_scheme() + resolved_path(parent_of(from.subrange(7, from.len() as int)), url))
    } else {
        None
    }
}

/// The URI that the relative link `url` in the document `from_uri` points
/// to; none when `from_uri` is not a `file://` URI.
pub fn linked_document_uri(from_uri: &str, url: &str) -> (r: Option<String>)
    ensures
        match linked_uri(from_uri@, url@) {
            None => r is None,
            Some(u) => r matches Some(s) && s@ == u,
        },
{
    let f = chars_of(from_uri);
    let scheme: [char; 7] = ['f', 'i', 'l', 'e', ':', '/', '/'];
    if f.len() < 7 {
        return None;
    }
    let mut k: usize = 0;
    while k < 7
        invariant
            k <= 7,
            f@ == from_uri@,
            f@.len() >= 7,
            scheme@ == file_scheme(),
            forall|j: int| 0 <= j < k ==> f@[j] == file_scheme()[j],
        decreases 7 - k,
    {
        if f[k] != scheme[k] {
            proof {
                assert(scheme@[k as int] == file_scheme()[k as int]);
                assert(f@.subrange(0, 7)[k as int] != file_scheme()[k as int]);
                assert(f@.subrange(0, 7) != file_scheme());
            }
            return None;
        }
        k = k + 1;
    }
    assert(f@.subrange(0, 7) =~= file_scheme());
    let ghost path = f@.subrange(7, f@.len() as int);
    // position of the last '/' of the path, searched from the end
    let mut i: usize = f.len();
    while i > 7 && f[i - 1] != '/'
        invariant
            7 <= i <= f@.len(),
            path == f@.subrange(7, f@.len() as int),
            last_index_of(path, '/') == last_index_of(f@.subrange(7, i as int), '/'),
        decreases i,
    {
        assert(f@.subrange(7, i as int).drop_last() =~= f@.subrange(7, i - 1));
        i = i - 1;
    }
    proof {
        if i > 7 {
            assert(f@.subrange(7, i as int).last() == '/');
        } else {
            assert(f@.subrange(7, i as int) =~= Seq::<char>::empty());
        }
    }
    let mut dir: Vec<char> = Vec::new();
    if i > 8 {
        let mut m: usize = 7;
        while m < i - 1
            invariant
                7 <= m <= i - 1,
                i <= f@.len(),
                dir@ == f@.subrange(7, m as int),
            decreases i - 1 - m,
        {
            dir.push(f[m]);
            assert(dir@ =~= f@.subrange(7, m + 1));
            m = m + 1;
        }
        assert(dir@ =~= path.subrange(0, i - 8));
    } else if i == 8 {
        dir.push('/');
        assert(dir@ =~= seq!['/']);
    }
    let dir_s = string_of_chars(dir.as_slice());
    let target = resolve_relative_path(dir_s.as_str(), url);
    let t = chars_of(target.as_str());
    let mut out: Vec<char> = Vec::new();
    let mut n: usize = 0;
    while n < 7
        invariant
            n <= 7,
            scheme@ == file_scheme(),
            out@ == file_scheme().subrange(0, n as int),
        decreases 7 - n,
    {
        out.push(scheme[n]);
        assert(out@ =~= file_scheme().subrange(0, n + 1));
        n = n + 1;
    }
    let ghost head = out@;
    let mut q: usize = 0;
    while q < t.len()
        invariant
            q <= t@.len(),
            out@ == head + t@.subrange(0, q as int),
        decreases t@.len() - q,
    {
        out.push(t[q]);
        assert(out@ =~= head + t@.subrange(0, q + 1));
        q = q + 1;
    }
    assert(t@.subrange(0, t@.len() as int) =~= t@);
    assert(head =~= file_scheme());
    Some(string_of_chars(out.as_slice()))
}

} // verus!
