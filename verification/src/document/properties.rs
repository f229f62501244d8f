//! Logseq property values: a value is kept as written, read as a list of
//! comma-separated items, or read as a page reference without its brackets.

use vstd::prelude::*;

use crate::text::{chars_of, string_of_chars};

use super::fields::{comma_pieces, lemma_comma_pieces_len, trim, trim_bounds};
use super::types::PropertyValueEntry;

verus! {

/// The items of a list value: the pieces between commas, each trimmed
/// (empty ones kept).
pub open spec fn property_items(s: Seq<char>) -> Seq<Seq<char>> {
    comma_pieces(s).map_values(|p: Seq<char>| trim(p))
}

/// `s` with every leading `[[` removed.
pub open spec fn strip_open(s: Seq<char>) -> Seq<char>
    decreases s.len(),
{
    if s.len() >= 2 && s[0] == '[' && s[1] == '[' {
        strip_open(s.subrange(2, s.len() as int))
    } else {
        s
    }
}

/// `s` with every trailing `]]` removed.
pub open spec fn strip_close(s: Seq<char>) -> Seq<char>
    decreases s.len(),
{
    if s.len() >= 2 && s[s.len() - 2] == ']' && s[s.len() - 1] == ']' {
        strip_close(s.subrange(0, s.len() - 2))
    } else {
        s
    }
}

/// The view of a property value.
pub ghost enum PropertyValueView {
    Str(Seq<char>),
    List(Seq<Seq<char>>),
    PageRef(Seq<char>),
}

/// The view of a property value entry.
pub open spec fn property_value_view(v: PropertyValueEntry) -> PropertyValueView {
    match v {
        PropertyValueEntry::String(s) => PropertyValueView::Str(s@),
        PropertyValueEntry::List(l) => PropertyValueView::List(l@.map_values(|x: String| x@)),
        PropertyValueEntry::PageRef(s) => PropertyValueView::PageRef(s@),
    }
}

/// The value of a property of value type `t`: type 1 is a list, type 2 a page
/// reference (`[[` and `]]` removed), anything else the text as written.
pub open spec fn property_value_of(value: Seq<char>, t: u8) -> PropertyValueView {
    if t == 1 {
        PropertyValueView::List(property_items(value))
    } else if t == 2 {
        PropertyValueView::PageRef(strip_close(strip_open(value)))
    } else {
        PropertyValueView::Str(value)
    }
}

/// The items of `s`, each trimmed.
fn property_items_exec(s: &[char]) -> (r: Vec<String>)
    ensures
        r@.map_values(|x: String| x@) == property_items(s@),
{
    let b = s.len();
    let ghost body = s@;
    let ghost mut done: Seq<Seq<char>> = Seq::empty();
    let mut out: Vec<String> = Vec::new();
    let mut cur: usize = 0;
    let mut i: usize = 0;
    assert(body.subrange(0, 0) =~= Seq::<char>::empty());
    assert(comma_pieces(body.subrange(0, 0)) =~= seq![s@.subrange(0, 0)]);
    assert(out@.map_values(|x: String| x@) =~= done.map_values(|p: Seq<char>| trim(p)));
    while i < b
        invariant
            cur <= i <= b == s@.len(),
            body == s@,
            comma_pieces(body.subrange(0, i as int)) == done.push(s@.subrange(cur as int, i as int)),
            out@.map_values(|x: String| x@) == done.map_values(|p: Seq<char>| trim(p)),
        decreases b - i,
    {
        let ghost pre = body.subrange(0, i as int);
        assert(body.subrange(0, i + 1).drop_last() =~= pre);
        assert(body.subrange(0, i + 1).last() == s@[i as int]);
        if s[i] == ',' {
            let (x, y) = trim_bounds(s, cur, i);
            let ghost piece = s@.subrange(cur as int, i as int);
            let ghost before = out@;
            out.push(string_of_chars(&s[x..y]));
            proof {
                assert(out@.map_values(|x: String| x@) =~= before.map_values(|x: String| x@).push(trim(piece)));
                assert(done.push(piece).map_values(|p: Seq<char>| trim(p)) =~= done.map_values(|p: Seq<char>| trim(p)).push(trim(piece)));
                assert(s@.subrange(i + 1, i + 1) =~= Seq::<char>::empty());
                assert(comma_pieces(body.subrange(0, i + 1)) == comma_pieces(pre).push(Seq::empty()));
                done = done.push(piece);
                assert(comma_pieces(body.subrange(0, i + 1)) =~= done.push(s@.subrange(i + 1, i + 1)));
            }
            cur = i + 1;
        } else {
            proof {
                assert(s@.subrange(cur as int, i + 1) =~= s@.subrange(cur as int, i as int).push(s@[i as int]));
                lemma_comma_pieces_len(pre);
                let p0 = comma_pieces(pre);
                assert(p0 == done.push(s@.subrange(cur as int, i as int)));
                assert(comma_pieces(body.subrange(0, i + 1)) == p0.update(p0.len() - 1, p0.last().push(s@[i as int])));
                assert(comma_pieces(body.subrange(0, i + 1)) =~= done.push(s@.subrange(cur as int, i + 1)));
            }
        }
        i = i + 1;
    }
    assert(body.subrange(0, b as int) =~= body);
    let (x, y) = trim_bounds(s, cur, b);
    let ghost piece = s@.subrange(cur as int, b as int);
    let ghost before = out@;
    out.push(string_of_chars(&s[x..y]));
    proof {
        assert(out@.map_values(|x: String| x@) =~= before.map_values(|x: String| x@).push(trim(piece)));
        assert(done.push(piece).map_values(|p: Seq<char>| trim(p)) =~= done.map_values(|p: Seq<char>| trim(p)).push(trim(piece)));
    }
    out
}

/// `s` without its leading `[[`s and then its trailing `]]`s.
fn page_ref_exec(s: &[char]) -> (r: String)
    ensures
        r@ == strip_close(strip_open(s@)),
{
    let n = s.len();
    let mut a: usize = 0;
    assert(s@.subrange(0, n as int) =~= s@);
    while n - a >= 2 && s[a] == '[' && s[a + 1] == '['
        invariant
            a <= n == s@.len(),
            strip_open(s@) == strip_open(s@.subrange(a as int, n as int)),
        decreases n - a,
    {
        assert(s@.subrange(a as int, n as int).subrange(2, n - a) =~= s@.subrange(a + 2, n as int));
        a = a + 2;
    }
    assert(strip_open(s@.subrange(a as int, n as int)) == s@.subrange(a as int, n as int)) by {
        let t = s@.subrange(a as int, n as int);
        if t.len() >= 2 {
            assert(t[0] == s@[a as int] && t[1] == s@[a + 1]);
        }
    }
    let mut b: usize = n;
    while b - a >= 2 && s[b - 2] == ']' && s[b - 1] == ']'
        invariant
            a <= b <= n == s@.len(),
            strip_close(s@.subrange(a as int, n as int)) == strip_close(s@.subrange(a as int, b as int)),
        decreases b - a,
    {
        assert(s@.subrange(a as int, b as int).subrange(0, b - a - 2) =~= s@.subrange(a as int, b - 2));
        b = b - 2;
    }
    assert(strip_close(s@.subrange(a as int, b as int)) == s@.subrange(a as int, b as int)) by {
        let t = s@.subrange(a as int, b as int);
        if t.len() >= 2 {
            assert(t[t.len() - 2] == s@[b - 2] && t[t.len() - 1] == s@[b - 1]);
        }
    }
    string_of_chars(&s[a..b])
}

/// The value of a property whose text is `value` and whose value type is `t`.
pub fn property_value(value: &str, t: u8) -> (r: PropertyValueEntry)
    ensures
        property_value_view(r) == property_value_of(value@, t),
{
    let c = chars_of(value);
    if t == 1 {
        PropertyValueEntry::List(property_items_exec(c.as_slice()))
    } else if t == 2 {
        PropertyValueEntry::PageRef(page_ref_exec(c.as_slice()))
    } else {
        PropertyValueEntry::String(value.to_owned())
    }
}

} // verus!
