//! Heading slugs.

use vstd::prelude::*;

use crate::text::{chars_of, decimal, decimal_string, digit_char, str_eq, string_of_chars};

verus! {

/// The lowercase form of `s`, as `str::to_lowercase` computes it (Unicode case mapping).
pub uninterp spec fn lowercase_of(s: Seq<char>) -> Seq<char>;

/// Trusted: `str::to_lowercase` is a function of its argument alone.
#[verifier::external_body]
fn to_lowercase(s: &str) -> (r: String)
    ensures
        r@ == lowercase_of(s@),
{
    s.to_lowercase()
}

/// Whether `c` is alphabetic or numeric, as `char::is_alphanumeric` decides.
pub uninterp spec fn char_is_alphanumeric(c: char) -> bool;

/// Trusted: `char::is_alphanumeric` is a function of the character alone.
#[verifier::external_body]
fn is_alphanumeric(c: char) -> (r: bool)
    ensures
        r == char_is_alphanumeric(c),
{
    c.is_alphanumeric()
}

/// The alphanumeric flag of each character of `s`.
pub open spec fn alphanumeric_of(s: Seq<char>) -> Seq<bool> {
    Seq::new(s.len(), |i: int| char_is_alphanumeric(s[i]))
}

/// The characters of `l` that a slug keeps (`alnum` flags each): alphanumeric
/// characters and `-` stay, a space becomes `-`, anything else is dropped.
pub open spec fn kept_chars(l: Seq<char>, alnum: Seq<bool>) -> Seq<char>
    decreases l.len(),
{
    if l.len() == 0 {
        Seq::empty()
    } else {
        let rest = kept_chars(l.drop_last(), alnum.drop_last());
        let c = l.last();
        if alnum.last() || c == '-' {
            rest.push(c)
        } else if c == ' ' {
            rest.push('-')
        } else {
            rest
        }
    }
}

/// `s` with every run of dashes shortened to one dash.
pub open spec fn collapse_dashes(s: Seq<char>) -> Seq<char>
    decreases s.len(),
{
    if s.len() == 0 {
        Seq::empty()
    } else if s.last() == '-' && s.len() >= 2 && s[s.len() - 2] == '-' {
        collapse_dashes(s.drop_last())
    } else {
        collapse_dashes(s.drop_last()).push(s.last())
    }
}

/// `s` without its leading dashes.
pub open spec fn trim_start_dashes(s: Seq<char>) -> Seq<char>
    decreases s.len(),
{
    if s.len() > 0 && s[0] == '-' {
        trim_start_dashes(s.drop_first())
    } else {
        s
    }
}

/// `s` without its trailing dashes.
pub open spec fn trim_end_dashes(s: Seq<char>) -> Seq<char>
    decreases s.len(),
{
    if s.len() > 0 && s.last() == '-' {
        trim_end_dashes(s.drop_last())
    } else {
        s
    }
}

/// The slug of lowercased text `l` whose characters `alnum` flags as alphanumeric.
pub open spec fn slug_of(l: Seq<char>, alnum: Seq<bool>) -> Seq<char> {
    trim_end_dashes(trim_start_dashes(collapse_dashes(kept_chars(l, alnum))))
}

/// Whether `c` is a dash or a character of `l` flagged alphanumeric.
pub open spec fn slug_char(l: Seq<char>, alnum: Seq<bool>, c: char) -> bool {
    c == '-' || exists|j: int| 0 <= j < l.len() && #[trigger] alnum[j] && l[j] == c
}

/// Whether `s` has no two dashes in a row.
pub open spec fn no_double_dash(s: Seq<char>) -> bool {
    forall|i: int| 0 <= i < s.len() - 1 ==> !(#[trigger] s[i] == '-' && s[i + 1] == '-')
}

/// The characters a slug keeps from two texts one after the other are those
/// it keeps from each.
proof fn lemma_kept_chars_concat(a: Seq<char>, fa: Seq<bool>, b: Seq<char>, fb: Seq<bool>)
    requires
        a.len() == fa.len(),
        b.len() == fb.len(),
    ensures
        kept_chars(a + b, fa + fb) == kept_chars(a, fa) + kept_chars(b, fb),
    decreases b.len(),
{
    if b.len() == 0 {
        assert(a + b =~= a);
        assert(fa + fb =~= fa);
        assert(kept_chars(a, fa) + kept_chars(b, fb) =~= kept_chars(a, fa));
    } else {
        lemma_kept_chars_concat(a, fa, b.drop_last(), fb.drop_last());
        assert((a + b).drop_last() =~= a + b.drop_last());
        assert((fa + fb).drop_last() =~= fa + fb.drop_last());
        assert((a + b).last() == b.last());
        assert((fa + fb).last() == fb.last());
        let kb = kept_chars(b, fb);
        let kb0 = kept_chars(b.drop_last(), fb.drop_last());
        let ka = kept_chars(a, fa);
        assert(ka + kb0.push(b.last()) =~= (ka + kb0).push(b.last()));
        assert(ka + kb0.push('-') =~= (ka + kb0).push('-'));
    }
}

/// A character that is neither alphanumeric, `-` nor a space (such as `_`
/// or `!`) leaves no trace in a slug: removing it gives the same slug.
pub proof fn law_slug_drops_other_chars(
    l1: Seq<char>,
    f1: Seq<bool>,
    c: char,
    l2: Seq<char>,
    f2: Seq<bool>,
)
    requires
        l1.len() == f1.len(),
        l2.len() == f2.len(),
        c != '-',
        c != ' ',
    ensures
        slug_of(l1 + seq![c] + l2, f1 + seq![false] + f2) == slug_of(l1 + l2, f1 + f2),
{
    lemma_kept_chars_concat(l1, f1, seq![c], seq![false]);
    lemma_kept_chars_concat(l1 + seq![c], f1 + seq![false], l2, f2);
    lemma_kept_chars_concat(l1, f1, l2, f2);
    assert(seq![c].drop_last() =~= Seq::<char>::empty());
    assert(seq![false].drop_last() =~= Seq::<bool>::empty());
    assert(kept_chars(Seq::<char>::empty(), Seq::<bool>::empty()) == Seq::<char>::empty());
    assert(seq![c].last() == c && seq![false].last() == false);
    assert(kept_chars(seq![c], seq![false]) =~= Seq::<char>::empty());
    assert(kept_chars(l1, f1) + Seq::<char>::empty() =~= kept_chars(l1, f1));
}

/// A space that is not alphanumeric counts in a slug as a dash would.
pub proof fn law_slug_space_is_dash(l1: Seq<char>, f1: Seq<bool>, l2: Seq<char>, f2: Seq<bool>)
    requires
        l1.len() == f1.len(),
        l2.len() == f2.len(),
    ensures
        slug_of(l1 + seq![' '] + l2, f1 + seq![false] + f2) == slug_of(l1 + seq!['-'] + l2, f1 + seq![false] + f2),
{
    lemma_kept_chars_concat(l1, f1, seq![' '], seq![false]);
    lemma_kept_chars_concat(l1 + seq![' '], f1 + seq![false], l2, f2);
    lemma_kept_chars_concat(l1, f1, seq!['-'], seq![false]);
    lemma_kept_chars_concat(l1 + seq!['-'], f1 + seq![false], l2, f2);
    assert(seq![' '].drop_last() =~= Seq::<char>::empty());
    assert(seq!['-'].drop_last() =~= Seq::<char>::empty());
    assert(seq![false].drop_last() =~= Seq::<bool>::empty());
    assert(kept_chars(Seq::<char>::empty(), Seq::<bool>::empty()) == Seq::<char>::empty());
    assert(seq![' '].last() == ' ' && seq![false].last() == false);
    assert(kept_chars(seq![' '], seq![false]) =~= seq!['-']);
    assert(kept_chars(Seq::<char>::empty(), Seq::<bool>::empty()) == Seq::<char>::empty());
    assert(seq!['-'].last() == '-' && seq![false].last() == false);
    assert(kept_chars(seq!['-'], seq![false]) =~= seq!['-']);
}

/// An alphanumeric character is kept in a slug as it is: the slug of a text
/// made of one alphanumeric character is that character.
pub proof fn law_slug_keeps_alphanumerics(c: char)
    requires
        c != '-',
    ensures
        slug_of(seq![c], seq![true]) == seq![c],
{
    assert(seq![c].drop_last() =~= Seq::<char>::empty());
    assert(seq![true].drop_last() =~= Seq::<bool>::empty());
    assert(kept_chars(Seq::<char>::empty(), Seq::<bool>::empty()) == Seq::<char>::empty());
    assert(seq![c].last() == c && seq![true].last() == true);
    assert(kept_chars(seq![c], seq![true]) =~= seq![c]);
    assert(seq![c].drop_last() =~= Seq::<char>::empty());
    assert(collapse_dashes(seq![c]) =~= seq![c]) by {
        assert(collapse_dashes(Seq::<char>::empty()) =~= Seq::<char>::empty());
        assert(Seq::<char>::empty().push(c) =~= seq![c]);
    }
    assert(seq![c].drop_first() =~= Seq::<char>::empty());
}

/// Every kept character is a dash or an alphanumeric character of the text.
proof fn lemma_kept_chars(l: Seq<char>, alnum: Seq<bool>)
    requires
        alnum.len() == l.len(),
    ensures
        forall|i: int| 0 <= i < kept_chars(l, alnum).len() ==> slug_char(l, alnum, #[trigger] kept_chars(l, alnum)[i]),
    decreases l.len(),
{
    if l.len() > 0 {
        let lp = l.drop_last();
        let ap = alnum.drop_last();
        lemma_kept_chars(lp, ap);
        let rest = kept_chars(lp, ap);
        assert forall|i: int| 0 <= i < rest.len() implies slug_char(l, alnum, #[trigger] rest[i]) by {
            if rest[i] != '-' {
                let j = choose|j: int| 0 <= j < lp.len() && #[trigger] ap[j] && lp[j] == rest[i];
                assert(alnum[j] && l[j] == rest[i]);
            }
        }
        let k = kept_chars(l, alnum);
        assert forall|i: int| 0 <= i < k.len() implies slug_char(l, alnum, #[trigger] k[i]) by {
            if i < rest.len() {
                assert(k[i] == rest[i]);
            } else if k[i] != '-' {
                assert(alnum[l.len() - 1] && l[l.len() - 1] == k[i]);
            }
        }
    }
}

/// Collapsing keeps only characters of its input, ends with the input's last
/// character, and leaves no two dashes in a row.
proof fn lemma_collapse(s: Seq<char>, p: spec_fn(char) -> bool)
    requires
        forall|i: int| 0 <= i < s.len() ==> p(#[trigger] s[i]),
    ensures
        forall|i: int| 0 <= i < collapse_dashes(s).len() ==> p(#[trigger] collapse_dashes(s)[i]),
        s.len() > 0 ==> collapse_dashes(s).len() > 0 && collapse_dashes(s).last() == s.last(),
        no_double_dash(collapse_dashes(s)),
    decreases s.len(),
{
    if s.len() > 0 {
        let sp = s.drop_last();
        assert forall|i: int| 0 <= i < sp.len() implies p(#[trigger] sp[i]) by {
            assert(sp[i] == s[i]);
        }
        lemma_collapse(sp, p);
        let c = collapse_dashes(sp);
        if s.last() == '-' && s.len() >= 2 && s[s.len() - 2] == '-' {
            assert(sp.last() == s[s.len() - 2]);
        } else {
            let r = c.push(s.last());
            assert(r == collapse_dashes(s));
            assert forall|i: int| 0 <= i < r.len() - 1 implies !(#[trigger] r[i] == '-' && r[i + 1]
                == '-') by {
                if i == r.len() - 2 {
                    assert(r[i] == c.last());
                    assert(sp.last() == s[s.len() - 2]);
                } else {
                    assert(r[i] == c[i] && r[i + 1] == c[i + 1]);
                }
            }
        }
    }
}

/// Trimming leading dashes drops a prefix and leaves no leading dash.
proof fn lemma_trim_start(s: Seq<char>) -> (k: int)
    ensures
        0 <= k <= s.len(),
        trim_start_dashes(s) == s.subrange(k, s.len() as int),
        trim_start_dashes(s).len() > 0 ==> trim_start_dashes(s)[0] != '-',
    decreases s.len(),
{
    if s.len() > 0 && s[0] == '-' {
        let k1 = lemma_trim_start(s.drop_first());
        assert(s.drop_first().subrange(k1, s.len() - 1) =~= s.subrange(k1 + 1, s.len() as int));
        k1 + 1
    } else {
        assert(s.subrange(0, s.len() as int) =~= s);
        0
    }
}

/// Trimming trailing dashes keeps a prefix and leaves no trailing dash.
proof fn lemma_trim_end(s: Seq<char>) -> (k: int)
    ensures
        0 <= k <= s.len(),
        trim_end_dashes(s) == s.subrange(0, k),
        trim_end_dashes(s).len() > 0 ==> trim_end_dashes(s).last() != '-',
    decreases s.len(),
{
    if s.len() > 0 && s.last() == '-' {
        let k1 = lemma_trim_end(s.drop_last());
        assert(s.drop_last().subrange(0, k1) =~= s.subrange(0, k1));
        k1
    } else {
        assert(s.subrange(0, s.len() as int) =~= s);
        s.len() as int
    }
}

/// A slug is URL-safe: it holds only dashes and alphanumeric characters of the
/// text, never two dashes in a row, and no dash at either end.
pub proof fn law_slug_shape(l: Seq<char>, alnum: Seq<bool>)
    requires
        alnum.len() == l.len(),
    ensures
        forall|i: int| 0 <= i < slug_of(l, alnum).len() ==> slug_char(l, alnum, #[trigger] slug_of(l, alnum)[i]),
        no_double_dash(slug_of(l, alnum)),
        slug_of(l, alnum).len() > 0 ==> slug_of(l, alnum)[0] != '-' && slug_of(l, alnum).last() != '-',
{
    let p = |c: char| slug_char(l, alnum, c);
    let kept = kept_chars(l, alnum);
    lemma_kept_chars(l, alnum);
    lemma_collapse(kept, p);
    let c = collapse_dashes(kept);
    let a = lemma_trim_start(c);
    let t = trim_start_dashes(c);
    let b = lemma_trim_end(t);
    let r = slug_of(l, alnum);
    assert(r == t.subrange(0, b));
    assert(forall|i: int| 0 <= i < r.len() ==> r[i] == c[a + i]);
    assert forall|i: int| 0 <= i < r.len() implies slug_char(l, alnum, #[trigger] r[i]) by {
        assert(p(c[a + i]));
    }
    assert forall|i: int| 0 <= i < r.len() - 1 implies !(#[trigger] r[i] == '-' && r[i + 1] == '-') by {
        assert(r[i] == c[a + i] && r[i + 1] == c[a + i + 1]);
    }
    if r.len() > 0 {
        assert(r[0] == t[0]);
    }
}

/// Build the slug of already lowercased text, given which of its characters
/// are alphanumeric: keep alphanumerics and dashes, turn spaces into dashes,
/// drop the rest, collapse runs of dashes, and trim dashes from both ends.
pub fn slugify_lowercase(lower: &str, alnum: &[bool]) -> (r: String)
    requires
        alnum@.len() == lower@.len(),
    ensures
        r@ == slug_of(lower@, alnum@),
{
    let l = chars_of(lower);
    // Keep, replace or drop each character.
    let mut kept: Vec<char> = Vec::new();
    let mut i: usize = 0;
    while i < l.len()
        invariant
            l@ == lower@,
            alnum@.len() == l@.len(),
            i <= l@.len(),
            kept@ == kept_chars(l@.subrange(0, i as int), alnum@.subrange(0, i as int)),
        decreases l@.len() - i,
    {
        let c = l[i];
        proof {
            assert(l@.subrange(0, i + 1).drop_last() =~= l@.subrange(0, i as int));
            assert(alnum@.subrange(0, i + 1).drop_last() =~= alnum@.subrange(0, i as int));
        }
        if alnum[i] || c == '-' {
            kept.push(c);
        } else if c == ' ' {
            kept.push('-');
        }
        i = i + 1;
    }
    assert(l@.subrange(0, l@.len() as int) =~= l@);
    assert(alnum@.subrange(0, l@.len() as int) =~= alnum@);
    // Collapse runs of dashes.
    let mut collapsed: Vec<char> = Vec::new();
    let mut prev_dash = false;
    let mut j: usize = 0;
    while j < kept.len()
        invariant
            j <= kept@.len(),
            prev_dash == (j > 0 && kept@[j - 1] == '-'),
            collapsed@ == collapse_dashes(kept@.subrange(0, j as int)),
        decreases kept@.len() - j,
    {
        let c = kept[j];
        proof {
            assert(kept@.subrange(0, j + 1).drop_last() =~= kept@.subrange(0, j as int));
        }
        if c == '-' {
            if !prev_dash {
                collapsed.push('-');
            }
            prev_dash = true;
        } else {
            collapsed.push(c);
            prev_dash = false;
        }
        j = j + 1;
    }
    assert(kept@.subrange(0, kept@.len() as int) =~= kept@);
    // Trim dashes from both ends.
    let n = collapsed.len();
    let mut a: usize = 0;
    assert(collapsed@.subrange(0, n as int) =~= collapsed@);
    while a < n && collapsed[a] == '-'
        invariant
            a <= n == collapsed@.len(),
            trim_start_dashes(collapsed@) == trim_start_dashes(collapsed@.subrange(a as int, n as int)),
        decreases n - a,
    {
        assert(collapsed@.subrange(a as int, n as int).drop_first() =~= collapsed@.subrange(
            a + 1,
            n as int,
        ));
        a = a + 1;
    }
    let mut b: usize = n;
    assert(collapsed@.subrange(a as int, n as int).subrange(0, (n - a) as int) =~= collapsed@.subrange(a as int, n as int));
    while b > a && collapsed[b - 1] == '-'
        invariant
            a <= b <= n == collapsed@.len(),
            trim_start_dashes(collapsed@) == collapsed@.subrange(a as int, n as int),
            trim_end_dashes(collapsed@.subrange(a as int, n as int)) == trim_end_dashes(
                collapsed@.subrange(a as int, b as int),
            ),
        decreases b - a,
    {
        assert(collapsed@.subrange(a as int, b as int).drop_last() =~= collapsed@.subrange(
            a as int,
            b - 1,
        ));
        b = b - 1;
    }
    let mut out: Vec<char> = Vec::new();
    let mut k: usize = a;
    while k < b
        invariant
            a <= k <= b <= n == collapsed@.len(),
            out@ == collapsed@.subrange(a as int, k as int),
        decreases b - k,
    {
        out.push(collapsed[k]);
        assert(collapsed@.subrange(a as int, k + 1) =~= collapsed@.subrange(a as int, k as int).push(collapsed@[k as int]));
        k = k + 1;
    }
    string_of_chars(out.as_slice())
}

/// Convert heading text to a URL-safe slug: lowercase it, keep alphanumerics
/// and dashes, turn spaces into dashes, drop everything else, collapse runs of
/// dashes, and trim dashes from both ends.
pub fn slugify(text: &str) -> (r: String)
    ensures
        r@ == slug_of(lowercase_of(text@), alphanumeric_of(lowercase_of(text@))),
{
    let lower = to_lowercase(text);
    let l = chars_of(lower.as_str());
    let mut alnum: Vec<bool> = Vec::new();
    let mut i: usize = 0;
    while i < l.len()
        invariant
            l@ == lower@,
            i <= l@.len(),
            alnum@ =~= alphanumeric_of(lower@).subrange(0, i as int),
        decreases l@.len() - i,
    {
        alnum.push(is_alphanumeric(l[i]));
        i = i + 1;
    }
    assert(alnum@ =~= alphanumeric_of(lower@));
    slugify_lowercase(lower.as_str(), alnum.as_slice())
}

/// The slug handed out for `base` as its `n`-th candidate (from 0): `base`
/// itself first, then `base-1`, `base-2`, and so on.
pub open spec fn numbered_slug(base: Seq<char>, n: nat) -> Seq<char> {
    if n == 0 {
        base
    } else {
        base + seq!['-'] + decimal(n)
    }
}

/// The slugs of a list of issued slugs.
pub open spec fn issued(used: Seq<String>) -> Seq<Seq<char>> {
    used.map_values(|s: String| s@)
}

/// A decimal numeral has at least one digit, and at least two from 10 on.
proof fn lemma_decimal_len(n: nat)
    ensures
        decimal(n).len() >= 1,
        n >= 10 ==> decimal(n).len() >= 2,
    decreases n,
{
    if n >= 10 {
        lemma_decimal_len(n / 10);
    }
}

/// Different digits have different characters.
proof fn lemma_digit_char_injective(a: nat, b: nat)
    requires
        a < 10,
        b < 10,
        digit_char(a) == digit_char(b),
    ensures
        a == b,
{
    let x = (a + 48) as u8;
    let y = (b + 48) as u8;
    assert(x as char == y as char);
    assert(x as u32 == (x as char) as u32);
    assert(y as u32 == (y as char) as u32);
}

/// Different numbers have different numerals.
proof fn lemma_decimal_injective(n: nat, m: nat)
    requires
        decimal(n) == decimal(m),
    ensures
        n == m,
    decreases n,
{
    lemma_decimal_len(n);
    lemma_decimal_len(m);
    if n < 10 && m < 10 {
        assert(decimal(n) == seq![digit_char(n)]);
        assert(decimal(m) == seq![digit_char(m)]);
        assert(decimal(n)[0] == digit_char(n));
        assert(decimal(m)[0] == digit_char(m));
        lemma_digit_char_injective(n, m);
    } else if n >= 10 && m >= 10 {
        assert(decimal(n) == decimal(n / 10).push(digit_char(n % 10)));
        assert(decimal(m) == decimal(m / 10).push(digit_char(m % 10)));
        assert(decimal(n).last() == digit_char(n % 10));
        assert(decimal(m).last() == digit_char(m % 10));
        assert(decimal(n).drop_last() =~= decimal(n / 10));
        assert(decimal(m).drop_last() =~= decimal(m / 10));
        lemma_digit_char_injective(n % 10, m % 10);
        lemma_decimal_injective(n / 10, m / 10);
    } else {
        assert(decimal(n).len() != decimal(m).len());
    }
}

/// Different candidate numbers give different slugs.
proof fn lemma_numbered_injective(base: Seq<char>, a: nat, b: nat)
    requires
        numbered_slug(base, a) == numbered_slug(base, b),
    ensures
        a == b,
{
    if a != 0 && b != 0 {
        let n = base.len() + 1;
        assert(numbered_slug(base, a).subrange(n as int, numbered_slug(base, a).len() as int) =~= decimal(a));
        assert(numbered_slug(base, b).subrange(n as int, numbered_slug(base, b).len() as int) =~= decimal(b));
        lemma_decimal_injective(a, b);
    } else if a != 0 || b != 0 {
        lemma_decimal_len(a);
        lemma_decimal_len(b);
        assert(numbered_slug(base, a).len() != numbered_slug(base, b).len());
    }
}

/// Among the first `used.len() + 1` candidates of a base, one is not issued.
pub proof fn lemma_some_free(used: Seq<Seq<char>>, base: Seq<char>)
    ensures
        exists|k: nat| k <= used.len() && !used.contains(#[trigger] numbered_slug(base, k)),
{
    if forall|k: nat| k <= used.len() ==> used.contains(#[trigger] numbered_slug(base, k)) {
        let n = used.len();
        let cands = Seq::new(n + 1, |k: int| numbered_slug(base, k as nat));
        assert(cands.no_duplicates()) by {
            assert forall|x: int, y: int| 0 <= x < cands.len() && 0 <= y < cands.len() && x != y
                implies cands[x] != cands[y] by {
                if cands[x] == cands[y] {
                    lemma_numbered_injective(base, x as nat, y as nat);
                }
            }
        }
        cands.unique_seq_to_set();
        used.lemma_cardinality_of_set();
        assert(cands.to_set().subset_of(used.to_set())) by {
            assert forall|c: Seq<char>| cands.to_set().contains(c) implies used.to_set().contains(c) by {
                let x = choose|x: int| 0 <= x < cands.len() && cands[x] == c;
                assert(used.contains(numbered_slug(base, x as nat)));
            }
        }
        vstd::set_lib::lemma_len_subset(cands.to_set(), used.to_set());
    }
}

/// Whether `s` is among the issued slugs.
fn issued_has(used: &Vec<String>, s: &str) -> (r: bool)
    ensures
        r == issued(used@).contains(s@),
{
    let mut i: usize = 0;
    while i < used.len()
        invariant
            i <= used@.len(),
            forall|j: int| 0 <= j < i ==> issued(used@)[j] != s@,
        decreases used@.len() - i,
    {
        if str_eq(used[i].as_str(), s) {
            assert(issued(used@)[i as int] == s@);
            return true;
        }
        i = i + 1;
    }
    false
}

/// `base-n`.
fn suffixed(base: &str, n: usize) -> (r: String)
    ensures
        r@ == base@ + seq!['-'] + decimal(n as nat),
{
    let digits = decimal_string(n);
    let mut chars = chars_of(base);
    chars.push('-');
    let d = chars_of(digits.as_str());
    let ghost pre = chars@;
    let mut i: usize = 0;
    while i < d.len()
        invariant
            i <= d@.len(),
            chars@ == pre + d@.subrange(0, i as int),
        decreases d@.len() - i,
    {
        chars.push(d[i]);
        assert(d@.subrange(0, i + 1) =~= d@.subrange(0, i as int).push(d@[i as int]));
        i = i + 1;
    }
    assert(d@.subrange(0, d@.len() as int) =~= d@);
    assert(chars@ =~= base@ + seq!['-'] + decimal(n as nat));
    string_of_chars(chars.as_slice())
}

/// Deduplicate a slug against the slugs already handed out: the result is
/// `base` when it was not handed out yet, else `base-k` for the least `k`
/// whose slug was not; it is recorded as handed out. So no slug is handed
/// out twice.
pub fn dedup_slug(base: &str, used: &mut Vec<String>) -> (r: String)
    requires
        old(used)@.len() < usize::MAX,
    ensures
        exists|k: nat| #[trigger] numbered_slug(base@, k) == r@
            && forall|j: nat| j < k ==> issued(old(used)@).contains(#[trigger] numbered_slug(base@, j)),
        !issued(old(used)@).contains(r@),
        final(used)@ == old(used)@.push(r),
        issued(old(used)@).no_duplicates() ==> issued(final(used)@).no_duplicates(),
{
    let ghost u0 = issued(used@);
    proof {
        lemma_some_free(u0, base@);
    }
    let ghost k0 = choose|k: nat| k <= u0.len() && !u0.contains(#[trigger] numbered_slug(base@, k));
    let mut k: usize = 0;
    loop
        invariant
            issued(used@) == u0,
            u0 == issued(old(used)@),
            used@ == old(used)@,
            used@.len() < usize::MAX,
            k0 <= u0.len() == used@.len(),
            !u0.contains(numbered_slug(base@, k0)),
            k <= k0,
            forall|j: nat| j < k ==> u0.contains(#[trigger] numbered_slug(base@, j)),
        decreases k0 - k,
    {
        let cand = if k == 0 {
            base.to_owned()
        } else {
            suffixed(base, k)
        };
        assert(cand@ == numbered_slug(base@, k as nat));
        if !issued_has(used, cand.as_str()) {
            let ghost before = used@;
            let r = cand.clone();
            used.push(cand);
            proof {
                assert(numbered_slug(base@, k as nat) == r@);
                assert(issued(used@) =~= u0.push(r@));
                if u0.no_duplicates() {
                    assert forall|x: int, y: int| 0 <= x < issued(used@).len() && 0 <= y < issued(used@).len() && x != y
                        implies issued(used@)[x] != issued(used@)[y] by {
                        if x < u0.len() && y < u0.len() {
                        } else if x < u0.len() {
                            assert(u0.contains(u0[x]));
                        } else {
                            assert(u0.contains(u0[y]));
                        }
                    }
                }
            }
            return r;
        }
        assert(k < k0);
        k = k + 1;
    }
}

} // verus!
