//! Byte offsets and line/character positions of a document's text.

use vstd::prelude::*;
use vstd::string::StringSliceAdditionalSpecFns;

use super::types::Position;

verus! {

/// The offsets just past each `\n` of `b`, in order.
pub open spec fn newline_ends(b: Seq<u8>) -> Seq<int>
    decreases b.len(),
{
    if b.len() == 0 {
        Seq::empty()
    } else if b.last() == 10 {
        newline_ends(b.drop_last()).push(b.len() as int)
    } else {
        newline_ends(b.drop_last())
    }
}

/// The byte offsets where the lines of `b` start: line 0 at offset 0, line
/// `n` just after the `n`-th `\n`.
pub open spec fn line_starts_of(b: Seq<u8>) -> Seq<int> {
    seq![0int] + newline_ends(b)
}

/// Whether `s` is strictly increasing.
pub open spec fn increasing(s: Seq<u32>) -> bool {
    forall|i: int, j: int| 0 <= i < j < s.len() ==> s[i] < s[j]
}

/// The line of an offset: the last line start at or before it.
pub open spec fn line_of(starts: Seq<u32>, offset: u32) -> int {
    choose|i: int| 0 <= i < starts.len() && #[trigger] starts[i] <= offset && (i + 1 == starts.len() || offset < starts[i + 1])
}

/// Build the sorted list of byte offsets where each line starts.
pub fn byte_offset_line_starts(text: &str) -> (r: Vec<u32>)
    requires
        text.spec_bytes().len() < 4294967296,
    ensures
        r@.map_values(|x: u32| x as int) == line_starts_of(text.spec_bytes()),
{
    let b = text.as_bytes();
    let mut starts: Vec<u32> = Vec::new();
    starts.push(0);
    let mut i: usize = 0;
    assert(starts@.map_values(|x: u32| x as int) =~= seq![0int]);
    assert(b@.subrange(0, 0) =~= Seq::<u8>::empty());
    while i < b.len()
        invariant
            i <= b@.len(),
            b@ == text.spec_bytes(),
            b@.len() < 4294967296,
            starts@.map_values(|x: u32| x as int) == seq![0int] + newline_ends(b@.subrange(0, i as int)),
        decreases b@.len() - i,
    {
        let ghost before = starts@;
        assert(b@.subrange(0, i + 1).drop_last() =~= b@.subrange(0, i as int));
        assert(b@.subrange(0, i + 1).last() == b@[i as int]);
        if b[i] == 10 {
            starts.push((i + 1) as u32);
            assert(starts@.map_values(|x: u32| x as int) =~= before.map_values(|x: u32| x as int).push(i + 1));
        }
        i = i + 1;
    }
    assert(b@.subrange(0, b@.len() as int) =~= b@);
    starts
}

/// Where `x` sits in `s`: the index of a matching element, or the index where
/// it could be inserted keeping `s` sorted.
///
/// Trusted: `slice::binary_search` on a sorted slice returns `Ok` with the
/// index of an element equal to `x` when there is one, and otherwise `Err`
/// with the index where `x` could be inserted keeping the order. On an
/// unsorted slice its result is left unsaid.
#[verifier::external_body]
fn binary_search_u32(s: &[u32], x: u32) -> (r: Result<usize, usize>)
    ensures
        (forall|i: int, j: int| 0 <= i <= j < s@.len() ==> s@[i] <= s@[j]) ==> match r {
            Ok(i) => i < s@.len() && s@[i as int] == x,
            Err(j) => j <= s@.len() && (forall|k: int| 0 <= k < j ==> s@[k] < x) && (forall|k: int|
                j <= k < s@.len() ==> x < s@[k]),
        },
{
    s.binary_search(&x)
}

/// Convert a byte offset to a position: 0-based line and 0-based character
/// (a byte count from the start of the line).
pub fn byte_offset_to_position(line_starts: &[u32], offset: u32) -> (p: Position)
    requires
        line_starts@.len() > 0,
        line_starts@[0] == 0,
        increasing(line_starts@),
        line_starts@.len() <= 4294967296,
    ensures
        p.line == line_of(line_starts@, offset),
        p.character == offset - line_starts@[line_of(line_starts@, offset)],
{
    let s = line_starts;
    let line = match binary_search_u32(s, offset) {
        Ok(exact) => exact,
        Err(insert) => {
            assert(insert > 0) by {
                if insert == 0 {
                    assert(offset < s@[0]);
                }
            }
            insert - 1
        },
    };
    proof {
        let l = line as int;
        assert(0 <= l < s@.len() && s@[l] <= offset && (l + 1 == s@.len() || offset < s@[l + 1]));
        let c = line_of(s@, offset);
        assert(c == l) by {
            if c < l {
                assert(s@[c + 1] <= s@[l]);
            } else if c > l {
                assert(s@[l + 1] <= s@[c]);
            }
        }
    }
    Position::new(line as u32, offset - s[line])
}

/// The offsets past each newline increase, and lie in `1..=b.len()`.
proof fn lemma_newline_ends(b: Seq<u8>)
    ensures
        forall|i: int, j: int| 0 <= i < j < newline_ends(b).len() ==> newline_ends(b)[i] < newline_ends(b)[j],
        forall|i: int| 0 <= i < newline_ends(b).len() ==> 1 <= #[trigger] newline_ends(b)[i] <= b.len(),
        newline_ends(b).len() <= b.len(),
    decreases b.len(),
{
    if b.len() > 0 {
        lemma_newline_ends(b.drop_last());
    }
}

/// The line starts of any text begin at 0 and strictly increase, so they
/// are what `byte_offset_to_position` takes; each lies within the text (the
/// last may be its very end), and there is one more than there are newlines
/// at most.
pub proof fn law_line_starts_fit_positions(b: Seq<u8>)
    ensures
        line_starts_of(b).len() >= 1,
        line_starts_of(b)[0] == 0,
        forall|i: int, j: int| 0 <= i < j < line_starts_of(b).len() ==> line_starts_of(b)[i] < line_starts_of(b)[j],
        forall|i: int| 0 <= i < line_starts_of(b).len() ==> 0 <= #[trigger] line_starts_of(b)[i] <= b.len(),
        line_starts_of(b).len() <= b.len() + 1,
{
    lemma_newline_ends(b);
    let s = line_starts_of(b);
    let e = newline_ends(b);
    assert forall|i: int, j: int| 0 <= i < j < s.len() implies s[i] < s[j] by {
        if i == 0 {
            assert(s[j] == e[j - 1]);
        } else {
            assert(s[i] == e[i - 1] && s[j] == e[j - 1]);
        }
    }
    assert forall|i: int| 0 <= i < s.len() implies 0 <= #[trigger] s[i] <= b.len() by {
        if i > 0 {
            assert(s[i] == e[i - 1]);
        }
    }
}

} // verus!
