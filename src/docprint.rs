//! How a doc block is best written back: as `///`, as `/** */`, or as a
//! `#[doc = ...]` attribute.
use vstd::prelude::*;

verus! {

/// The ways a doc block can be written.
#[derive(Debug, Clone, Copy, PartialEq, Eq, Structural)]
pub enum DocCategory {
    /// A single line, like `/// foo`
    SingleLine,
    /// A block comment, like `/** foo */`
    Block,
    /// A `#[doc = "..."]` attribute
    Attribute,
}

/// The nesting of `/*` and `*/` after the first `k` two-byte windows of `s`,
/// with whether the last window was taken as a marker (which then cannot
/// start another one); `None` once `*/` closes nothing or the depth would
/// not fit a `u32`.
pub open spec fn scan(s: Seq<u8>, k: int) -> Option<(int, bool)>
    decreases k,
{
    if k <= 0 {
        Some((0, false))
    } else {
        match scan(s, k - 1) {
            None => None,
            Some((depth, skip)) => if skip {
                Some((depth, false))
            } else if s[k - 1] == 47 && s[k] == 42 {
                if depth + 1 > u32::MAX {
                    None
                } else {
                    Some((depth + 1, true))
                }
            } else if s[k - 1] == 42 && s[k] == 47 {
                if depth == 0 {
                    None
                } else {
                    Some((depth - 1, true))
                }
            } else {
                Some((depth, false))
            },
        }
    }
}

/// Every `/*` in the text is closed by a `*/`, and no `*/` closes nothing.
pub open spec fn balanced(s: Seq<u8>) -> bool {
    let windows = if s.len() >= 2 {
        s.len() - 1
    } else {
        0
    };
    match scan(s, windows) {
        Some((depth, _)) => depth == 0,
        None => false,
    }
}

proof fn lemma_scan_none_stays(s: Seq<u8>, j: int, k: int)
    requires
        0 <= j <= k,
        scan(s, j) is None,
    ensures
        scan(s, k) is None,
    decreases k - j,
{
    if j < k {
        lemma_scan_none_stays(s, j, k - 1);
    }
}

/// Check that the comment holds balanced `/*` and `*/`.
pub fn contains_balanced_blocks(comment: &[u8]) -> (r: bool)
    ensures
        r == balanced(comment@),
{
    let n = comment.len();
    if n < 2 {
        return true;
    }
    let mut depth: u32 = 0;
    let mut skip = false;
    let mut k: usize = 1;
    while k < n
        invariant
            1 <= k <= n,
            n == comment@.len(),
            scan(comment@, k - 1) == Some((depth as int, skip)),
        decreases n - k,
    {
        let a = comment[k - 1];
        let b = comment[k];
        if skip {
            skip = false;
        } else if a == 47 && b == 42 {
            if depth == u32::MAX {
                proof {
                    lemma_scan_none_stays(comment@, k as int, n - 1);
                }
                return false;
            }
            depth = depth + 1;
            skip = true;
        } else if a == 42 && b == 47 {
            if depth == 0 {
                proof {
                    lemma_scan_none_stays(comment@, k as int, n - 1);
                }
                return false;
            }
            depth = depth - 1;
            skip = true;
        }
        k = k + 1;
    }
    depth == 0
}

/// How a doc block is written: on one `///` line where it has no newline;
/// else as `/** */` where its block comments are balanced; else as an attribute.
pub fn categorize_doc(doc: &[u8]) -> (r: DocCategory)
    ensures
        r == (if doc@.contains(10u8) {
            if balanced(doc@) {
                DocCategory::Block
            } else {
                DocCategory::Attribute
            }
        } else {
            DocCategory::SingleLine
        }),
{
    let mut i: usize = 0;
    let mut has_newline = false;
    while i < doc.len()
        invariant
            0 <= i <= doc@.len(),
            has_newline == exists|j: int| 0 <= j < i && doc@[j] == 10u8,
        decreases doc.len() - i,
    {
        if doc[i] == 10 {
            has_newline = true;
        }
        i = i + 1;
    }
    if has_newline {
        proof {
            let j = choose|j: int| 0 <= j < i && doc@[j] == 10u8;
            assert(doc@.contains(10u8));
        }
        if contains_balanced_blocks(doc) {
            DocCategory::Block
        } else {
            DocCategory::Attribute
        }
    } else {
        proof {
            if doc@.contains(10u8) {
                let j = choose|j: int| 0 <= j < doc@.len() && doc@[j] == 10u8;
            }
        }
        DocCategory::SingleLine
    }
}

} // verus!
