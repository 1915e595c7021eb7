use vstd::prelude::*;

verus! {

/// Index of the last `'.'` in `s`, or `-1` when `s` holds no dot.
pub open spec fn last_dot(s: Seq<char>) -> int
    decreases s.len(),
{
    if s.len() == 0 {
        -1
    } else if s[s.len() - 1] == '.' {
        s.len() - 1
    } else {
        last_dot(s.drop_last())
    }
}

/// `c` is the letter `l` up to ASCII case; `l` is the lowercase form.
pub open spec fn ci_eq(c: char, l: char) -> bool {
    c == l || c as u32 + 32 == l as u32
}

pub open spec fn ext_is2(e: Seq<char>, a: char, b: char) -> bool {
    e.len() == 2 && ci_eq(e[0], a) && ci_eq(e[1], b)
}

pub open spec fn ext_is3(e: Seq<char>, a: char, b: char, c: char) -> bool {
    e.len() == 3 && ci_eq(e[0], a) && ci_eq(e[1], b) && ci_eq(e[2], c)
}

pub open spec fn ext_is4(e: Seq<char>, a: char, b: char, c: char, d: char) -> bool {
    e.len() == 4 && ci_eq(e[0], a) && ci_eq(e[1], b) && ci_eq(e[2], c) && ci_eq(e[3], d)
}

/// The icon a name resolves to: directories get the directory icon; files go
/// by the lowercased extension after the final dot, names without a dot get
/// the default file icon.
pub open spec fn spec_icon(name: Seq<char>, is_dir: bool) -> Seq<char> {
    if is_dir {
        "📁"@
    } else if last_dot(name) == -1 {
        "📄"@
    } else {
        let e = name.subrange(last_dot(name) + 1, name.len() as int);
        if ext_is3(e, 'y', 'm', 'l') || ext_is4(e, 'y', 'a', 'm', 'l') {
            "🔧"@
        } else if ext_is2(e, 's', 'h') {
            "📜"@
        } else if ext_is3(e, 'p', 'e', 'm') {
            "🔑"@
        } else if ext_is2(e, 'm', 'd') {
            "📝"@
        } else if ext_is3(e, 't', 'x', 't') {
            "📄"@
        } else if ext_is3(e, 's', 'q', 'l') {
            "📊"@
        } else {
            "📄"@
        }
    }
}

/// `s` is one of the fixed icons the resolver can produce.
pub open spec fn is_icon(s: Seq<char>) -> bool {
    s == "📁"@ || s == "🔧"@ || s == "📜"@ || s == "🔑"@ || s == "📝"@ || s == "📄"@
        || s == "📊"@
}

/// Icon mapping is total: every name/is_dir pair resolves to exactly one icon
/// of the fixed set, and a directory always gets the directory icon, whatever
/// its name.
pub proof fn lemma_icon_totality(name: Seq<char>, is_dir: bool)
    ensures
        is_icon(spec_icon(name, is_dir)),
        is_dir ==> spec_icon(name, is_dir) == "📁"@,
{
}

proof fn lemma_last_dot_bounds(s: Seq<char>)
    ensures
        -1 <= last_dot(s) < s.len(),
        last_dot(s) >= 0 ==> s[last_dot(s)] == '.',
    decreases s.len(),
{
    if s.len() > 0 && s[s.len() - 1] != '.' {
        lemma_last_dot_bounds(s.drop_last());
    }
}

proof fn lemma_last_dot_at(s: Seq<char>, k: int)
    requires
        0 <= k < s.len(),
        s[k] == '.',
        forall|j: int| k < j < s.len() ==> s[j] != '.',
    ensures
        last_dot(s) == k,
    decreases s.len(),
{
    if k < s.len() - 1 {
        assert(s.drop_last()[k] == s[k]);
        lemma_last_dot_at(s.drop_last(), k);
    }
}

proof fn lemma_last_dot_none(s: Seq<char>)
    requires
        forall|j: int| 0 <= j < s.len() ==> s[j] != '.',
    ensures
        last_dot(s) == -1,
    decreases s.len(),
{
    if s.len() > 0 {
        lemma_last_dot_none(s.drop_last());
    }
}

/// Position just after the last dot of `name`, or `None` when it has no dot.
fn find_last_dot(name: &str) -> (r: Option<usize>)
    ensures
        match r {
            Some(d) => d < name@.len() && last_dot(name@) == d,
            None => last_dot(name@) == -1,
        },
{
    let n = name.unicode_len();
    let mut i: usize = n;
    while i > 0
        invariant
            i <= n,
            n == name@.len(),
            forall|j: int| i <= j < n ==> name@[j] != '.',
        decreases i,
    {
        if name.get_char(i - 1) == '.' {
            proof {
                lemma_last_dot_at(name@, i - 1);
            }
            return Some(i - 1);
        }
        i = i - 1;
    }
    proof {
        lemma_last_dot_none(name@);
    }
    None
}

/// `c` equals the lowercase letter `l` up to ASCII case.
fn char_matches(c: char, l: char) -> (r: bool)
    ensures
        r == ci_eq(c, l),
{
    c == l || (c as u32) + 32 == (l as u32)
}

/// Icon for one entry: the directory icon for directories, else a fixed
/// extension table keyed by the lowercased part of `name` after its last dot.
pub fn get_icon(name: &str, is_dir: bool) -> (r: &'static str)
    ensures
        r@ == spec_icon(name@, is_dir),
{
    if is_dir {
        return "📁";
    }
    let n = name.unicode_len();
    match find_last_dot(name) {
        None => "📄",
        Some(d) => {
            let elen = n - 1 - d;
            proof {
                lemma_last_dot_bounds(name@);
            }
            if elen == 2 {
                let c0 = name.get_char(d + 1);
                let c1 = name.get_char(d + 2);
                if char_matches(c0, 's') && char_matches(c1, 'h') {
                    "📜"
                } else if char_matches(c0, 'm') && char_matches(c1, 'd') {
                    "📝"
                } else {
                    "📄"
                }
            } else if elen == 3 {
                let c0 = name.get_char(d + 1);
                let c1 = name.get_char(d + 2);
                let c2 = name.get_char(d + 3);
                if char_matches(c0, 'y') && char_matches(c1, 'm') && char_matches(c2, 'l') {
                    "🔧"
                } else if char_matches(c0, 'p') && char_matches(c1, 'e') && char_matches(c2, 'm') {
                    "🔑"
                } else if char_matches(c0, 't') && char_matches(c1, 'x') && char_matches(c2, 't') {
                    "📄"
                } else if char_matches(c0, 's') && char_matches(c1, 'q') && char_matches(c2, 'l') {
                    "📊"
                } else {
                    "📄"
                }
            } else if elen == 4 {
                let c0 = name.get_char(d + 1);
                let c1 = name.get_char(d + 2);
                let c2 = name.get_char(d + 3);
                let c3 = name.get_char(d + 4);
                if char_matches(c0, 'y') && char_matches(c1, 'a') && char_matches(c2, 'm')
                    && char_matches(c3, 'l') {
                    "🔧"
                } else {
                    "📄"
                }
            } else {
                "📄"
            }
        },
    }
}

} // verus!
