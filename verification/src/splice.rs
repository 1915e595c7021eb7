use vstd::prelude::*;

verus! {

/// First index at or after `from` where `pat` occurs in `s`, or `-1` when it
/// does not occur there.
pub open spec fn find_from(s: Seq<char>, pat: Seq<char>, from: int) -> int
    decreases s.len() + 1 - from,
{
    if from < 0 || from + pat.len() > s.len() {
        -1
    } else if s.subrange(from, from + pat.len()) == pat {
        from
    } else {
        find_from(s, pat, from + 1)
    }
}

proof fn lemma_find_from_eq(s: Seq<char>, pat: Seq<char>, from: int, i: int)
    requires
        0 <= from <= i,
        i + pat.len() <= s.len(),
        forall|k: int| from <= k < i ==> #[trigger] s.subrange(k, k + pat.len()) != pat,
        s.subrange(i, i + pat.len()) == pat,
    ensures
        find_from(s, pat, from) == i,
    decreases i - from,
{
    if from < i {
        lemma_find_from_eq(s, pat, from + 1, i);
    }
}

proof fn lemma_find_from_none(s: Seq<char>, pat: Seq<char>, from: int)
    requires
        0 <= from,
        forall|k: int|
            from <= k && k + pat.len() <= s.len() ==> #[trigger] s.subrange(k, k + pat.len()) != pat,
    ensures
        find_from(s, pat, from) == -1,
    decreases s.len() + 1 - from,
{
    if from + pat.len() <= s.len() {
        lemma_find_from_none(s, pat, from + 1);
    }
}

/// First index at or after `from` where `pat` occurs in `s`.
pub fn find_str(s: &str, pat: &str, from: usize) -> (r: Option<usize>)
    ensures
        match r {
            Some(i) => from <= i && i + pat@.len() <= s@.len() && find_from(
                s@,
                pat@,
                from as int,
            ) == i as int,
            None => find_from(s@, pat@, from as int) == -1,
        },
{
    let n = s.unicode_len();
    let m = pat.unicode_len();
    if m > n {
        return None;
    }
    if from > n - m {
        return None;
    }
    if m == 0 {
        proof {
            assert(s@.subrange(from as int, from as int) =~= pat@);
        }
        return Some(from);
    }
    let mut i: usize = from;
    while i <= n - m
        invariant
            from <= i,
            1 <= m <= n,
            n == s@.len(),
            m == pat@.len(),
            i <= n - m + 1,
            forall|k: int| from <= k < i ==> #[trigger] s@.subrange(k, k + pat@.len()) != pat@,
        decreases n - m + 1 - i,
    {
        let mut j: usize = 0;
        let mut ok = true;
        while j < m
            invariant
                j <= m,
                i + m <= n,
                n == s@.len(),
                m == pat@.len(),
                ok ==> forall|j2: int| 0 <= j2 < j ==> s@[i + j2] == pat@[j2],
                !ok ==> s@.subrange(i as int, i + m) != pat@,
            decreases m - j,
    {
            if s.get_char(i + j) != pat.get_char(j) {
                proof {
                    assert(s@.subrange(i as int, i + m)[j as int] == s@[i + j]);
                }
                ok = false;
                j = m;
            } else {
                j = j + 1;
            }
        }
        if ok {
            proof {
                assert(s@.subrange(i as int, i + m) =~= pat@);
                lemma_find_from_eq(s@, pat@, from as int, i as int);
            }
            return Some(i);
        }
        i = i + 1;
    }
    proof {
        lemma_find_from_none(s@, pat@, from as int);
    }
    None
}

/// The heading that marks the tree block in the document.
pub open spec fn marker() -> Seq<char> {
    "## Directory Structure"@
}

/// The block spliced into the document for a rendered tree.
pub open spec fn block(tree: Seq<char>) -> Seq<char> {
    "## Directory Structure\n\n```\n"@ + tree + "\n```\n"@
}

/// The document after splicing: where the marker heading occurs, everything
/// from its first occurrence up to the next heading line (or the end) is
/// replaced by the block; otherwise the block is appended.
pub open spec fn spec_splice(content: Seq<char>, tree: Seq<char>) -> Seq<char> {
    let start = find_from(content, marker(), 0);
    if start == -1 {
        content + block(tree)
    } else {
        let e = find_from(content, "\n## "@, start);
        let end = if e == -1 {
            content.len() as int
        } else {
            e
        };
        content.subrange(0, start) + block(tree) + content.subrange(end, content.len() as int)
    }
}

/// Splices the rendered tree into the document text: replaces the region
/// after the first marker heading up to the next heading (or the end), or
/// appends a fresh block when the document has no marker yet.
pub fn splice_tree(content: &str, tree: &str) -> (r: String)
    ensures
        r@ == spec_splice(content@, tree@),
{
    let n = content.unicode_len();
    match find_str(content, "## Directory Structure", 0) {
        None => {
            let mut out = String::from_str(content);
            out.append("## Directory Structure\n\n```\n");
            out.append(tree);
            out.append("\n```\n");
            proof {
                assert(out@ =~= content@ + block(tree@));
            }
            out
        },
        Some(start) => {
            let end = match find_str(content, "\n## ", start) {
                None => n,
                Some(e) => e,
            };
            let mut out = String::from_str(content.substring_char(0, start));
            out.append("## Directory Structure\n\n```\n");
            out.append(tree);
            out.append("\n```\n");
            out.append(content.substring_char(end, n));
            proof {
                assert(out@ =~= content@.subrange(0, start as int) + block(tree@)
                    + content@.subrange(end as int, content@.len() as int));
            }
            out
        },
    }
}

} // verus!
