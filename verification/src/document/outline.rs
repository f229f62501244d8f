//! Table of contents and outline tree.
//!
//! A heading's parent is the closest earlier heading of a lower level; its depth
//! is the number of ancestors on that chain. The table of contents lists every
//! heading with its depth, and the outline nests every heading under its parent.

use vstd::prelude::*;

use super::types::{HeadingEntry, OutlineNode, TocEntry};

verus! {

/// Levels of a heading sequence.
pub open spec fn levels_of(hs: Seq<HeadingEntry>) -> Seq<u8> {
    hs.map_values(|h: HeadingEntry| h.level)
}

/// The largest index `k <= j` whose level is lower than that of heading `i`, or -1.
pub open spec fn last_lower(levels: Seq<u8>, i: int, j: int) -> int
    decreases j + 1,
{
    if j < 0 {
        -1
    } else if levels[j] < levels[i] {
        j
    } else {
        last_lower(levels, i, j - 1)
    }
}

/// The parent of heading `i`: the closest earlier heading of a lower level, or -1.
pub open spec fn parent_of(levels: Seq<u8>, i: int) -> int {
    last_lower(levels, i, i - 1)
}

/// The depth of heading `i`: how many ancestors it has.
pub open spec fn depth_of(levels: Seq<u8>, i: int) -> nat
    decreases i,
{
    let p = parent_of(levels, i);
    if i <= 0 || p < 0 || p >= i {
        0
    } else {
        depth_of(levels, p) + 1
    }
}

/// `last_lower` finds `a` when `a` is lower and nothing after it up to `j` is.
pub proof fn lemma_last_lower(levels: Seq<u8>, i: int, j: int, a: int)
    requires
        -1 <= a <= j,
        a >= 0 ==> levels[a] < levels[i],
        forall|k: int| a < k <= j ==> levels[k] >= levels[i],
    ensures
        last_lower(levels, i, j) == a,
    decreases j + 1,
{
    if j > a {
        lemma_last_lower(levels, i, j - 1, a);
    }
}

/// `last_lower` never goes past its starting index.
pub proof fn lemma_last_lower_bound(levels: Seq<u8>, i: int, j: int)
    ensures
        -1 <= last_lower(levels, i, j) <= (if j < -1 { -1 } else { j }),
        last_lower(levels, i, j) >= 0 ==> levels[last_lower(levels, i, j)] < levels[i],
        forall|k: int| last_lower(levels, i, j) < k <= j ==> levels[k] >= levels[i],
    decreases j + 1,
{
    if j >= 0 && !(levels[j] < levels[i]) {
        lemma_last_lower_bound(levels, i, j - 1);
    }
}

/// The table-of-contents entry of heading `i`.
pub open spec fn spec_toc_entry(hs: Seq<HeadingEntry>, i: int) -> TocEntry {
    TocEntry {
        text: hs[i].text,
        slug: hs[i].slug,
        level: hs[i].level,
        depth: depth_of(levels_of(hs), i) as usize,
    }
}

/// The table of contents of a heading sequence.
pub open spec fn spec_toc(hs: Seq<HeadingEntry>) -> Seq<TocEntry> {
    Seq::new(hs.len(), |i: int| spec_toc_entry(hs, i))
}

/// The stack of open headings while scanning headings `0..i`: increasing
/// indices ending at `i - 1`, each the parent of the next, each at its depth,
/// and every heading skipped between two of them at least as deep in level as
/// the later one.
#[verifier::opaque]
pub open spec fn chain_ok(levels: Seq<u8>, ids: Seq<int>, i: int) -> bool {
    &&& forall|t: int| 0 <= t < ids.len() ==> 0 <= #[trigger] ids[t] < i
    &&& forall|s: int, t: int| 0 <= s < t < ids.len() ==> ids[s] < ids[t]
    &&& i > 0 ==> ids.len() > 0 && ids.last() == i - 1
    &&& forall|t: int, j: int|
        #![trigger levels[j], ids[t]]
        0 <= t < ids.len() && (if t == 0 { -1 } else { ids[t - 1] }) < j < ids[t] ==> levels[j]
            >= levels[ids[t]]
    &&& forall|t: int|
        0 <= t < ids.len() ==> parent_of(levels, #[trigger] ids[t]) == (if t == 0 {
            -1
        } else {
            ids[t - 1]
        })
    &&& forall|t: int| 0 <= t < ids.len() ==> depth_of(levels, #[trigger] ids[t]) == t
    &&& forall|t: int| 0 <= t < ids.len() ==> levels[#[trigger] ids[t]] >= 0
}

/// The part of the stack left after popping every entry at least as deep as `level`.
pub open spec fn popped_ok(levels: Seq<u8>, ids0: Seq<int>, ids: Seq<int>, i: int, level: u8) -> bool {
    &&& ids.len() <= ids0.len()
    &&& ids =~= ids0.subrange(0, ids.len() as int)
    &&& forall|j: int| (if ids.len() == 0 { -1 } else { ids.last() }) < j < i ==> levels[j] >= level
}

/// Popping one more entry that is at least as deep keeps `popped_ok`.
proof fn lemma_pop_one(levels: Seq<u8>, ids0: Seq<int>, ids: Seq<int>, i: int, level: u8)
    requires
        0 <= i < levels.len(),
        chain_ok(levels, ids0, i),
        popped_ok(levels, ids0, ids, i, level),
        ids.len() > 0,
        levels[ids.last()] >= level,
    ensures
        popped_ok(levels, ids0, ids.drop_last(), i, level),
{
    let k = ids.len() - 1;
    assert(ids0[k] == ids[k]);
    let rest = ids.drop_last();
    let lo = if k == 0 { -1 } else { ids0[k - 1] };
    assert(forall|j: int| lo < j < ids0[k] ==> #[trigger] levels[j] >= levels[ids0[k]]) by {
        reveal(chain_ok);
    }
    assert(rest =~= ids0.subrange(0, rest.len() as int));
    assert forall|j: int| (if rest.len() == 0 { -1 } else { rest.last() }) < j < i implies levels[j]
        >= level by {
        if k > 0 {
            assert(rest.last() == ids0[k - 1]);
        }
        if j < ids0[k] {
            assert(levels[j] >= levels[ids0[k]]);
        }
    }
}

/// After popping, the top of the stack is the parent of heading `i`, the
/// stack height is its depth, and pushing `i` gives the stack for `0..i + 1`.
proof fn lemma_push(levels: Seq<u8>, ids0: Seq<int>, ids: Seq<int>, i: int)
    requires
        0 <= i < levels.len(),
        chain_ok(levels, ids0, i),
        popped_ok(levels, ids0, ids, i, levels[i]),
        ids.len() > 0 ==> levels[ids.last()] < levels[i],
    ensures
        parent_of(levels, i) == (if ids.len() == 0 { -1 } else { ids.last() }),
        depth_of(levels, i) == ids.len(),
        chain_ok(levels, ids.push(i), i + 1),
{
    reveal(chain_ok);
    let a = if ids.len() == 0 { -1 } else { ids.last() };
    if ids.len() > 0 {
        assert(ids[ids.len() - 1] == ids0[ids.len() - 1]);
    }
    lemma_last_lower(levels, i, i - 1, a);
    if ids.len() > 0 {
        assert(depth_of(levels, a) == ids.len() - 1);
    }
    let n = ids.push(i);
    assert forall|t: int| 0 <= t < n.len() implies parent_of(levels, #[trigger] n[t]) == (if t
        == 0 {
        -1
    } else {
        n[t - 1]
    }) by {
        if t < n.len() - 1 {
            assert(n[t] == ids0[t]);
            if t > 0 {
                assert(n[t - 1] == ids0[t - 1]);
            }
        }
    }
    assert forall|t: int, j: int|
        #![trigger levels[j], n[t]]
        0 <= t < n.len() && (if t == 0 { -1 } else { n[t - 1] }) < j < n[t] implies levels[j]
        >= levels[n[t]] by {
        if t < n.len() - 1 {
            assert(n[t] == ids0[t]);
            if t > 0 {
                assert(n[t - 1] == ids0[t - 1]);
            }
        }
    }
    assert forall|t: int| 0 <= t < n.len() implies depth_of(levels, #[trigger] n[t]) == t by {
        if t < n.len() - 1 {
            assert(n[t] == ids0[t]);
        }
    }
    assert forall|t: int| 0 <= t < n.len() implies 0 <= #[trigger] n[t] < i + 1 by {
        if t < n.len() - 1 {
            assert(n[t] == ids0[t]);
        }
    }
    assert forall|s: int, t: int| 0 <= s < t < n.len() implies n[s] < n[t] by {
        if t < n.len() - 1 {
            assert(n[t] == ids0[t]);
        }
        assert(n[s] == ids0[s] || s == n.len() - 1);
    }
}

/// Build flat table-of-contents entries with their depths.
pub fn build_toc(headings: &[HeadingEntry]) -> (toc: Vec<TocEntry>)
    ensures
        toc@ == spec_toc(headings@),
{
    let ghost hs = headings@;
    let ghost levels = levels_of(hs);
    let mut toc: Vec<TocEntry> = Vec::new();
    let mut level_stack: Vec<u8> = Vec::new();
    // Indices of the headings whose levels are on the stack.
    let ghost mut ids: Seq<int> = Seq::empty();
    let mut i: usize = 0;
    assert(chain_ok(levels, ids, 0)) by {
        reveal(chain_ok);
    }
    while i < headings.len()
        invariant
            hs == headings@,
            levels == levels_of(hs),
            i <= hs.len(),
            chain_ok(levels, ids, i as int),
            level_stack@.len() == ids.len(),
            forall|t: int| 0 <= t < ids.len() ==> level_stack@[t] == levels[#[trigger] ids[t]],
            toc@ =~= Seq::new(i as nat, |k: int| spec_toc_entry(hs, k)),
        decreases hs.len() - i,
    {
        let h = &headings[i];
        let level = h.level;
        let ghost ids0 = ids;
        assert(popped_ok(levels, ids0, ids, i as int, level)) by {
            reveal(chain_ok);
            assert(ids =~= ids0.subrange(0, ids.len() as int));
        }
        while level_stack.len() > 0 && level_stack[level_stack.len() - 1] >= level
            invariant
                hs == headings@,
                levels == levels_of(hs),
                i < hs.len(),
                level == levels[i as int],
                chain_ok(levels, ids0, i as int),
                popped_ok(levels, ids0, ids, i as int, level),
                level_stack@.len() == ids.len(),
                forall|t: int| 0 <= t < ids.len() ==> level_stack@[t] == levels[#[trigger] ids[t]],
            decreases level_stack@.len(),
        {
            proof {
                lemma_pop_one(levels, ids0, ids, i as int, level);
                ids = ids.drop_last();
            }
            level_stack.pop();
        }
        let depth = level_stack.len();
        proof {
            lemma_push(levels, ids0, ids, i as int);
            ids = ids.push(i as int);
        }
        level_stack.push(level);
        toc.push(
            TocEntry { text: h.text.clone(), slug: h.slug.clone(), level: h.level, depth },
        );
        i = i + 1;
    }
    toc
}

/// Preorder listing of an outline forest: each node's heading with its depth,
/// followed by its children one level deeper.
pub open spec fn flatten_nodes(nodes: Seq<OutlineNode>, depth: nat) -> Seq<
    (Option<HeadingEntry>, nat),
>
    decreases nodes,
{
    if nodes.len() == 0 {
        Seq::empty()
    } else {
        flatten_nodes(nodes.drop_last(), depth) + flatten_node(nodes.last(), depth)
    }
}

/// Preorder listing of one outline node at `depth`.
pub open spec fn flatten_node(n: OutlineNode, depth: nat) -> Seq<(Option<HeadingEntry>, nat)>
    decreases n,
{
    seq![(n.heading, depth)] + flatten_nodes(n.children@, depth + 1)
}

/// Headings `lo..hi`, each with its depth.
pub open spec fn spec_flat(hs: Seq<HeadingEntry>, lo: int, hi: int) -> Seq<(Option<HeadingEntry>, nat)> {
    Seq::new((hi - lo) as nat, |t: int| (Some(hs[lo + t]), depth_of(levels_of(hs), lo + t)))
}

/// The outline of a heading sequence: a root without heading whose forest lists,
/// in preorder, every heading at its depth. (A preorder listing with depths
/// determines the forest.)
pub open spec fn outline_of(root: OutlineNode, hs: Seq<HeadingEntry>) -> bool {
    &&& root.heading is None
    &&& flatten_nodes(root.children@, 0) == spec_flat(hs, 0, hs.len() as int)
}

/// Whether a heading of `level` nests under a parent of `parent_level` (everything
/// nests under the root).
fn is_deeper(level: u8, parent_level: Option<u8>) -> (b: bool)
    ensures
        b == (parent_level matches Some(pl) ==> level > pl),
{
    match parent_level {
        Some(pl) => level > pl,
        None => true,
    }
}

/// Build the children of heading `par` (of the root when `par` is -1), starting at
/// `pos = par + 1` and stopping at the first heading not deeper than `par`.
fn build_children(
    headings: &[HeadingEntry],
    pos: usize,
    parent_level: Option<u8>,
    Ghost(par): Ghost<int>,
    Ghost(depth): Ghost<nat>,
) -> (r: (Vec<OutlineNode>, usize))
    requires
        pos <= headings@.len(),
        par == pos - 1,
        par >= 0 ==> parent_level == Some(headings@[par].level) && depth == depth_of(
            levels_of(headings@),
            par,
        ) + 1,
        par < 0 ==> parent_level is None && depth == 0,
    ensures
        pos <= r.1 <= headings@.len(),
        r.1 < headings@.len() ==> (parent_level matches Some(pl) && headings@[r.1 as int].level <= pl),
        forall|j: int|
            pos <= j < r.1 ==> (parent_level matches Some(pl) ==> #[trigger] headings@[j].level
                > pl),
        flatten_nodes(r.0@, depth) == spec_flat(headings@, pos as int, r.1 as int),
    decreases headings@.len() - pos,
{
    let ghost hs = headings@;
    let ghost levels = levels_of(hs);
    let mut children: Vec<OutlineNode> = Vec::new();
    let mut cur = pos;
    assert(spec_flat(hs, pos as int, pos as int) =~= Seq::empty());
    while cur < headings.len() && is_deeper(headings[cur].level, parent_level)
        invariant
            hs == headings@,
            levels == levels_of(hs),
            pos <= cur <= hs.len(),
            par == pos - 1,
            par >= 0 ==> parent_level == Some(hs[par].level) && depth == depth_of(levels, par) + 1,
            par < 0 ==> parent_level is None && depth == 0,
            cur < hs.len() ==> forall|j: int| pos <= j < cur ==> #[trigger] levels[j] >= levels[cur as int],
            forall|j: int|
                pos <= j < cur ==> (parent_level matches Some(pl) ==> #[trigger] hs[j].level > pl),
            flatten_nodes(children@, depth) == spec_flat(hs, pos as int, cur as int),
        decreases hs.len() - cur,
    {
        let c = cur;
        proof {
            lemma_last_lower(levels, c as int, c - 1, par);
            assert(parent_of(levels, c as int) == par);
            assert(depth_of(levels, c as int) == depth);
        }
        let (grand, next) = build_children(
            headings,
            c + 1,
            Some(headings[c].level),
            Ghost(c as int),
            Ghost(depth + 1),
        );
        let ghost old_children = children@;
        let node = OutlineNode { heading: Some(headings[c].clone()), children: grand };
        children.push(node);
        proof {
            assert(children@.drop_last() =~= old_children);
            assert(flatten_nodes(children@, depth) == flatten_nodes(old_children, depth)
                + flatten_node(node, depth));
            assert(spec_flat(hs, pos as int, next as int) =~= spec_flat(hs, pos as int, c as int)
                + seq![(Some(hs[c as int]), depth)] + spec_flat(hs, c + 1, next as int));
        }
        cur = next;
    }
    (children, cur)
}

/// Build the outline tree: every heading nested under its closest earlier
/// heading of a lower level.
pub fn build_outline(headings: &[HeadingEntry]) -> (root: OutlineNode)
    ensures
        outline_of(root, headings@),
{
    let (children, end) = build_children(headings, 0, None, Ghost(-1), Ghost(0));
    OutlineNode { heading: None, children }
}

/// A heading whose every later heading up to `q` is of a higher level is an
/// ancestor of `q`: `q` is deeper.
proof fn lemma_deeper_after(levels: Seq<u8>, p: int, q: int)
    requires
        0 <= p < q < levels.len(),
        forall|k: int| p < k <= q ==> levels[k] > levels[p],
    ensures
        depth_of(levels, q) >= depth_of(levels, p) + 1,
    decreases q - p,
{
    let r = parent_of(levels, q);
    lemma_last_lower_bound(levels, q, q - 1);
    assert(p <= r) by {
        if r < p {
            assert(levels[p] >= levels[q]);
        }
    }
    if r > p {
        lemma_deeper_after(levels, p, r);
    }
}

/// A heading's depth is at most its index.
proof fn lemma_depth_bound(levels: Seq<u8>, i: int)
    requires
        0 <= i,
    ensures
        depth_of(levels, i) <= i,
    decreases i,
{
    let p = parent_of(levels, i);
    if i > 0 && 0 <= p < i {
        lemma_depth_bound(levels, p);
    }
}

/// Depths in the table of contents start at 0 and grow by at most one from a
/// heading to the next.
pub proof fn law_toc_depth_steps(hs: Seq<HeadingEntry>)
    ensures
        hs.len() > 0 ==> spec_toc(hs)[0].depth == 0,
        forall|i: int|
            1 <= i < hs.len() ==> (#[trigger] depth_of(levels_of(hs), i)) <= depth_of(levels_of(hs), i - 1) + 1,
{
    let levels = levels_of(hs);
    assert forall|i: int| 1 <= i < hs.len() implies (#[trigger] depth_of(levels, i)) <= depth_of(
        levels,
        i - 1,
    ) + 1 by {
        let p = parent_of(levels, i);
        lemma_last_lower_bound(levels, i, i - 1);
        if 0 <= p < i - 1 {
            assert forall|k: int| p < k <= i - 1 implies levels[k] > levels[p] by {
                assert(levels[k] >= levels[i]);
            }
            lemma_deeper_after(levels, p, i - 1);
        }
    }
}

/// The parent of heading `i` in the outline is the closest earlier heading
/// of a lower level (`parent_of`): it is one level shallower than `i`, and
/// every heading between them is at least as deep as `i`, so in the
/// outline's preorder listing it is the nearest earlier heading one level up.
/// A heading without such a parent sits at depth 0, under the root.
pub proof fn law_outline_parent(hs: Seq<HeadingEntry>, i: int)
    requires
        0 <= i < hs.len(),
    ensures
        parent_of(levels_of(hs), i) == -1 ==> depth_of(levels_of(hs), i) == 0,
        parent_of(levels_of(hs), i) >= 0 ==> {
            let p = parent_of(levels_of(hs), i);
            &&& p < i
            &&& hs[p].level < hs[i].level
            &&& forall|k: int| p < k < i ==> hs[k].level >= hs[i].level
            &&& depth_of(levels_of(hs), i) == depth_of(levels_of(hs), p) + 1
            &&& forall|k: int| p < k < i ==> #[trigger] depth_of(levels_of(hs), k) >= depth_of(levels_of(hs), i)
        },
{
    let levels = levels_of(hs);
    let p = parent_of(levels, i);
    lemma_last_lower_bound(levels, i, i - 1);
    if p >= 0 {
        assert(levels[p] == hs[p].level && levels[i] == hs[i].level);
        assert forall|k: int| p < k < i implies hs[k].level >= hs[i].level by {
            assert(levels[k] == hs[k].level);
        }
        assert forall|k: int| p < k < i implies #[trigger] depth_of(levels, k) >= depth_of(levels, i) by {
            assert forall|m: int| p < m <= k implies levels[m] > levels[p] by {
                assert(levels[m] >= levels[i]);
            }
            lemma_deeper_after(levels, p, k);
        }
    }
}

/// The table of contents and the outline agree: listing the outline in
/// preorder gives, in order, every heading with the depth of its table of
/// contents entry.
pub proof fn law_toc_matches_outline(root: OutlineNode, hs: Seq<HeadingEntry>)
    requires
        outline_of(root, hs),
        hs.len() <= usize::MAX,
    ensures
        flatten_nodes(root.children@, 0).len() == spec_toc(hs).len(),
        forall|i: int|
            0 <= i < hs.len() ==> (#[trigger] flatten_nodes(root.children@, 0)[i]) == (
                Some(hs[i]),
                spec_toc(hs)[i].depth as nat,
            ),
        forall|i: int|
            0 <= i < hs.len() ==> (#[trigger] spec_toc(hs)[i]).slug == hs[i].slug
                && spec_toc(hs)[i].text == hs[i].text && spec_toc(hs)[i].level == hs[i].level,
{
    assert forall|i: int| 0 <= i < hs.len() implies (#[trigger] flatten_nodes(root.children@, 0)[i])
        == (Some(hs[i]), spec_toc(hs)[i].depth as nat) by {
        lemma_depth_bound(levels_of(hs), i);
    }
}

} // verus!
