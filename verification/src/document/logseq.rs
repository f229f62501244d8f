//! Logseq outline headings: a list item whose text reads `- # Title` is a
//! heading in Logseq's outliner format.

use vstd::prelude::*;

use crate::text::{chars_of, is_whitespace};

use super::fields::trim_start;

verus! {

/// The first line of `t`: its characters before the first `\n`.
pub open spec fn first_line(t: Seq<char>) -> Seq<char>
    decreases t.len(),
{
    if t.len() == 0 || t[0] == '\n' {
        Seq::empty()
    } else {
        seq![t[0]] + first_line(t.drop_first())
    }
}

/// Whether a list item's text opens a Logseq heading: its first line, without
/// leading whitespace, is a `-`, `*` or `+` bullet, a space, then `#`.
pub open spec fn logseq_heading_text(t: Seq<char>) -> bool {
    let l = trim_start(first_line(t));
    &&& l.len() >= 3
    &&& (l[0] == '-' || l[0] == '*' || l[0] == '+')
    &&& l[1] == ' '
    &&& l[2] == '#'
}

/// A text that opens with `k` characters none of which is a newline has a
/// first line of at least `k` characters.
proof fn lemma_first_line_prefix(t: Seq<char>, k: int)
    requires
        0 <= k <= t.len(),
        forall|j: int| 0 <= j < k ==> t[j] != '\n',
    ensures
        first_line(t).len() >= k,
    decreases k,
{
    if k > 0 {
        lemma_first_line_prefix(t.drop_first(), k - 1);
    }
}

/// The first line of `t` is a prefix of `t` holding no newline.
proof fn lemma_first_line(t: Seq<char>)
    ensures
        first_line(t).len() <= t.len(),
        forall|j: int| 0 <= j < first_line(t).len() ==> #[trigger] first_line(t)[j] == t[j] && t[j] != '\n',
    decreases t.len(),
{
    if t.len() > 0 && t[0] != '\n' {
        lemma_first_line(t.drop_first());
        assert forall|j: int| 0 <= j < first_line(t).len() implies #[trigger] first_line(t)[j] == t[j] && t[j] != '\n' by {
            if j > 0 {
                assert(first_line(t)[j] == first_line(t.drop_first())[j - 1]);
            }
        }
    }
}

/// Whether the text of a list item opens a Logseq heading (`- # Title`,
/// `* # Title` or `+ # Title` on its first line, after any indentation).
pub fn is_logseq_heading(text: &str) -> (r: bool)
    ensures
        r == logseq_heading_text(text@),
{
    let t = chars_of(text);
    let n = t.len();
    let mut i: usize = 0;
    assert(t@.subrange(0, n as int) =~= t@);
    while i < n && t[i] != '\n' && is_whitespace(t[i])
        invariant
            i <= n == t@.len(),
            trim_start(first_line(t@)) == trim_start(first_line(t@.subrange(i as int, n as int))),
        decreases n - i,
    {
        let ghost s = t@.subrange(i as int, n as int);
        assert(s.drop_first() =~= t@.subrange(i + 1, n as int));
        assert(first_line(s) == seq![s[0]] + first_line(s.drop_first()));
        assert((seq![s[0]] + first_line(s.drop_first())).drop_first() =~= first_line(s.drop_first()));
        i = i + 1;
    }
    let ghost s = t@.subrange(i as int, n as int);
    if i == n || t[i] == '\n' {
        assert(first_line(s) =~= Seq::<char>::empty());
        return false;
    }
    // `s` opens with a character that is neither whitespace nor a newline.
    proof {
        lemma_first_line(s);
        assert(first_line(s) == seq![s[0]] + first_line(s.drop_first()));
    }
    assert(trim_start(first_line(s)) == first_line(s));
    proof {
        if s.len() >= 3 && (s[0] == '-' || s[0] == '*' || s[0] == '+') && s[1] == ' ' && s[2] == '#' {
            lemma_first_line_prefix(s, 3);
        }
    }
    n - i >= 3 && (t[i] == '-' || t[i] == '*' || t[i] == '+') && t[i + 1] == ' ' && t[i + 2] == '#'
}

} // verus!
