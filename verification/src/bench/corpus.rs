//! Synthetic benchmark corpus generation.

use vstd::prelude::*;
use vstd::string::{StrSliceExecFns, StringExecFns};

use crate::text::{decimal, decimal_string};

verus! {

/// Target synthetic document sizes.
#[derive(Debug, Clone, Copy, PartialEq, Eq, Structural)]
pub enum DocSizeTier {
    /// ~1 KiB document.
    Small,
    /// ~10 KiB document.
    Medium,
    /// ~100 KiB document.
    Large,
}

/// The minimum length of a document of each tier.
pub open spec fn tier_target(t: DocSizeTier) -> nat {
    match t {
        DocSizeTier::Small => 1024,
        DocSizeTier::Medium => 10240,
        DocSizeTier::Large => 102400,
    }
}

impl DocSizeTier {
    fn target_bytes(self) -> (n: usize)
        ensures
            n == tier_target(self),
    {
        match self {
            DocSizeTier::Small => 1_024,
            DocSizeTier::Medium => 10_240,
            DocSizeTier::Large => 102_400,
        }
    }
}

/// The opening of synthetic document `d` (its number in decimal): a title, a
/// frontmatter-like block, a section with a wiki link, a tag, a markdown link
/// and an XML task element.
pub open spec fn doc_header(d: Seq<char>) -> Seq<char> {
    "# Synthetic Document "@ + d + "\n\ntitle: synthetic-"@ + d
        + "\nkind: benchmark\n---\n\n## Section A\nThis document exercises [[wiki-links]] #tags and [markdown links](https://example.com/"@
        + d + ").\n\n<task id=\"t"@ + d + "\" owner=\"bench\">alpha</task>\n\n"@
}

/// The block repeated in synthetic document `d`: list items with a block id,
/// an XML element and a JSON-like fragment.
pub open spec fn doc_chunk(d: Seq<char>) -> Seq<char> {
    "- item "@ + d + "\n- nested detail for ^block-"@ + d + "\n- xml <meta key=\"k"@ + d
        + "\" value=\"v"@ + d + "\" />\n- json-ish {\"id\": "@ + d
        + ", \"state\": \"active\"}\n\n"@
}

/// `base` followed by as many copies of `chunk` as it takes to reach `target`
/// characters (none if `base` is long enough already).
pub open spec fn fill_to(base: Seq<char>, chunk: Seq<char>, target: nat) -> Seq<char>
    decreases (if base.len() >= target { 0 } else { target - base.len() }),
    when chunk.len() > 0
{
    if base.len() >= target {
        base
    } else {
        fill_to(base + chunk, chunk, target)
    }
}

/// Synthetic document `index` of tier `tier`.
pub open spec fn sized_doc(index: nat, tier: DocSizeTier) -> Seq<char> {
    fill_to(doc_header(decimal(index)), doc_chunk(decimal(index)), tier_target(tier))
}

/// The tier of document `i` in a mixed corpus: small, medium, large, in turn.
pub open spec fn mixed_tier(i: nat) -> DocSizeTier {
    if i % 3 == 0 {
        DocSizeTier::Small
    } else if i % 3 == 1 {
        DocSizeTier::Medium
    } else {
        DocSizeTier::Large
    }
}

/// `10^k`.
pub open spec fn ten_pow(k: nat) -> nat
    decreases k,
{
    if k == 0 {
        1
    } else {
        10 * ten_pow((k - 1) as nat)
    }
}

/// A number below `10^k` has at most `k` decimal digits.
proof fn lemma_decimal_len(n: nat, k: nat)
    requires
        k >= 1,
        n < ten_pow(k),
    ensures
        decimal(n).len() <= k,
    decreases k,
{
    if n >= 10 {
        assert(k >= 2) by {
            if k == 1 {
                assert(ten_pow(1) == 10) by {
                    reveal_with_fuel(ten_pow, 2);
                }
            }
        }
        assert(n / 10 < ten_pow((k - 1) as nat));
        lemma_decimal_len(n / 10, (k - 1) as nat);
    }
}

/// Every `usize` has at most 20 decimal digits.
proof fn lemma_decimal_usize(n: usize)
    ensures
        decimal(n as nat).len() <= 20,
{
    assert(ten_pow(20) == 100000000000000000000nat) by {
        reveal_with_fuel(ten_pow, 21);
    }
    lemma_decimal_len(n as nat, 20);
}

/// Build one synthetic markdown document at the requested size tier: the
/// header, then copies of the repeated block until the target length is reached.
pub fn build_sized_doc(index: usize, tier: DocSizeTier) -> (r: String)
    ensures
        r@ == sized_doc(index as nat, tier),
        r@.len() >= tier_target(tier),
{
    let target = tier.target_bytes();
    let d = decimal_string(index);
    let mut out = String::from_str("# Synthetic Document ");
    out.append(d.as_str());
    out.append("\n\ntitle: synthetic-");
    out.append(d.as_str());
    out.append(
        "\nkind: benchmark\n---\n\n## Section A\nThis document exercises [[wiki-links]] #tags and [markdown links](https://example.com/",
    );
    out.append(d.as_str());
    out.append(").\n\n<task id=\"t");
    out.append(d.as_str());
    out.append("\" owner=\"bench\">alpha</task>\n\n");

    let mut chunk = String::from_str("- item ");
    chunk.append(d.as_str());
    chunk.append("\n- nested detail for ^block-");
    chunk.append(d.as_str());
    chunk.append("\n- xml <meta key=\"k");
    chunk.append(d.as_str());
    chunk.append("\" value=\"v");
    chunk.append(d.as_str());
    chunk.append("\" />\n- json-ish {\"id\": ");
    chunk.append(d.as_str());
    chunk.append(", \"state\": \"active\"}\n\n");
    assert(out@ =~= doc_header(decimal(index as nat)));
    assert(chunk@ =~= doc_chunk(decimal(index as nat)));
    proof {
        reveal_strlit("- item ");
        reveal_strlit("\n- nested detail for ^block-");
        reveal_strlit("\n- xml <meta key=\"k");
        reveal_strlit("\" value=\"v");
        reveal_strlit("\" />\n- json-ish {\"id\": ");
        reveal_strlit(", \"state\": \"active\"}\n\n");
        lemma_decimal_usize(index);
    }
    let chunk_len = chunk.as_str().unicode_len();
    let mut len = out.as_str().unicode_len();
    assert(chunk_len > 0 && chunk_len < 1000);
    while len < target
        invariant
            len == out@.len(),
            chunk_len == chunk@.len(),
            0 < chunk_len < 1000,
            target == tier_target(tier),
            fill_to(out@, chunk@, target as nat) == sized_doc(index as nat, tier),
            chunk@ == doc_chunk(decimal(index as nat)),
        decreases (if len >= target { 0 } else { target - len }),
    {
        out.append(chunk.as_str());
        len = len + chunk_len;
    }
    out
}

/// Build a mixed-size synthetic corpus: `doc_count` documents whose tiers
/// cycle small, medium, large.
pub fn build_mixed_size_corpus(doc_count: usize) -> (docs: Vec<String>)
    ensures
        docs@.len() == doc_count,
        forall|i: int| 0 <= i < doc_count ==> (#[trigger] docs@[i])@ == sized_doc(i as nat, mixed_tier(i as nat)),
{
    let mut docs: Vec<String> = Vec::new();
    let mut i: usize = 0;
    while i < doc_count
        invariant
            i <= doc_count,
            docs@.len() == i,
            forall|k: int| 0 <= k < i ==> (#[trigger] docs@[k])@ == sized_doc(k as nat, mixed_tier(k as nat)),
        decreases doc_count - i,
    {
        let tier = match i % 3 {
            0 => DocSizeTier::Small,
            1 => DocSizeTier::Medium,
            _ => DocSizeTier::Large,
        };
        docs.push(build_sized_doc(i, tier));
        i = i + 1;
    }
    docs
}

} // verus!
