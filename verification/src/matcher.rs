use vstd::prelude::*;

use ignore::gitignore::{Gitignore, GitignoreBuilder};

verus! {

/// What a single query against the rule set reported for a path.
#[derive(PartialEq, Eq, Structural, Clone, Copy, Debug)]
pub enum Verdict {
    /// No rule matched the path.
    NoMatch,
    /// The last matching rule excludes the path.
    Ignored,
    /// The last matching rule is a negation that re-includes the path.
    Whitelisted,
}

/// Error building a rule set: the glob set could not be compiled.
#[derive(PartialEq, Eq, Structural, Clone, Copy, Debug)]
pub enum BuildError {
    Compile,
}

#[verifier::external_type_specification]
#[verifier::external_body]
pub struct ExGitignore(Gitignore);

#[verifier::external_type_specification]
#[verifier::external_body]
pub struct ExGitignoreBuilder(GitignoreBuilder);

#[verifier::external_type_specification]
#[verifier::external_body]
pub struct ExIgnoreError(ignore::Error);

/// The rule lines a builder has accepted so far.
pub uninterp spec fn builder_lines(b: GitignoreBuilder) -> Seq<Seq<char>>;

/// The rule lines a built matcher holds.
pub uninterp spec fn matcher_lines(g: Gitignore) -> Seq<Seq<char>>;

/// What a matcher built from `lines` answers for `path` queried with `is_dir`:
/// the result of `Gitignore::matched`, which depends on the lines, the path
/// and the flag alone.
pub uninterp spec fn verdict_of(lines: Seq<Seq<char>>, path: Seq<char>, is_dir: bool) -> Verdict;

/// Whether the gitignore line parser accepts `line`; it decides from the line
/// text alone.
pub uninterp spec fn line_ok(line: Seq<char>) -> bool;

/// Whether the glob set compiled from the accepted `lines` builds; it
/// decides from those lines alone.
pub uninterp spec fn globset_ok(lines: Seq<Seq<char>>) -> bool;

/// Relies on ignore::gitignore::GitignoreBuilder::new: a fresh builder holds
/// no rule lines. The root is fixed to the empty path, so every query is
/// relative to the scan root.
#[verifier::external_body]
fn builder_new() -> (b: GitignoreBuilder)
    ensures
        builder_lines(b) == Seq::<Seq<char>>::empty(),
{
    GitignoreBuilder::new("")
}

/// Relies on ignore::gitignore::GitignoreBuilder::add_line: on success the
/// line is appended to the builder's rules; a line whose glob does not parse
/// is rejected and leaves the builder unchanged; acceptance depends on the
/// line text alone.
#[verifier::external_body]
fn builder_add_line(b: &mut GitignoreBuilder, line: &str) -> (ok: bool)
    ensures
        ok == line_ok(line@),
        ok ==> builder_lines(*final(b)) == builder_lines(*old(b)).push(line@),
        !ok ==> builder_lines(*final(b)) == builder_lines(*old(b)),
{
    b.add_line(None, line).is_ok()
}

/// Relies on ignore::gitignore::GitignoreBuilder::build: on success the
/// matcher holds exactly the lines the builder accepted; whether the glob
/// set compiles depends on those lines alone, and an empty glob set always
/// builds.
#[verifier::external_body]
fn builder_build(b: &GitignoreBuilder) -> (r: Result<Gitignore, ignore::Error>)
    ensures
        (r is Ok) == globset_ok(builder_lines(*b)),
        builder_lines(*b).len() == 0 ==> r is Ok,
        match r {
            Ok(g) => matcher_lines(g) == builder_lines(*b),
            Err(_) => true,
        },
{
    b.build()
}

/// Relies on ignore::gitignore::Gitignore::matched: the verdict is a function
/// of the matcher's rule lines, the queried path and the `is_dir` flag; a
/// matcher holding no lines has no globs and matches nothing.
#[verifier::external_body]
fn matcher_query(g: &Gitignore, path: &str, is_dir: bool) -> (v: Verdict)
    ensures
        v == verdict_of(matcher_lines(*g), path@, is_dir),
        matcher_lines(*g).len() == 0 ==> v == Verdict::NoMatch,
{
    match g.matched(path, is_dir) {
        ignore::Match::None => Verdict::NoMatch,
        ignore::Match::Ignore(_) => Verdict::Ignored,
        ignore::Match::Whitelist(_) => Verdict::Whitelisted,
    }
}

/// `c` is whitespace as the gitignore format's line trimming sees it: the
/// Unicode white-space code points.
pub open spec fn is_space(c: char) -> bool {
    let u = c as u32;
    (9 <= u && u <= 13) || u == 32 || u == 0x85 || u == 0xA0 || u == 0x1680 || (0x2000 <= u && u
        <= 0x200A) || u == 0x2028 || u == 0x2029 || u == 0x202F || u == 0x205F || u == 0x3000
}

/// A rule line of an ignore file: neither blank — whitespace only — nor a
/// comment, whose first character is `#`. Only such lines carry a pattern.
pub open spec fn is_rule_line(l: Seq<char>) -> bool {
    l.len() > 0 && l[0] != '#' && (exists|i: int| 0 <= i < l.len() && !is_space(#[trigger] l[i]))
}

/// A rule line that the glob parser also accepts: exactly the lines a rule
/// set is built from.
pub open spec fn rule_pred() -> spec_fn(Seq<char>) -> bool {
    |l: Seq<char>| is_rule_line(l) && line_ok(l)
}

fn char_is_space(c: char) -> (r: bool)
    ensures
        r == is_space(c),
{
    let u = c as u32;
    (9 <= u && u <= 13) || u == 32 || u == 0x85 || u == 0xA0 || u == 0x1680 || (0x2000 <= u && u
        <= 0x200A) || u == 0x2028 || u == 0x2029 || u == 0x202F || u == 0x205F || u == 0x3000
}

/// Whether `line` is a rule line: non-blank and not a comment.
fn is_rule_line_exec(line: &str) -> (r: bool)
    ensures
        r == is_rule_line(line@),
{
    let n = line.unicode_len();
    if n == 0 {
        return false;
    }
    let c0 = line.get_char(0);
    if c0 == '#' {
        return false;
    }
    let mut i: usize = 0;
    while i < n
        invariant
            i <= n,
            0 < n == line@.len(),
            line@[0] != '#',
            forall|j: int| 0 <= j < i ==> is_space(#[trigger] line@[j]),
        decreases n - i,
    {
        if !char_is_space(line.get_char(i)) {
            proof {
                assert(exists|k: int|
                    0 <= k < line@.len() && !is_space(#[trigger] line@[k])) by {
                    assert(0 <= (i as int) < line@.len() && !is_space(line@[i as int]));
                }
            }
            return true;
        }
        i = i + 1;
    }
    false
}

/// Builds the rule set from the lines of an ignore file: one rule per line
/// that is neither blank nor a comment, in file order, so a missing, empty
/// or comments-only file gives an empty rule set. A rule line whose glob the
/// parser rejects is dropped, as loading a gitignore file drops such a line.
/// Building fails exactly when the glob set compiled from those lines does
/// not build; with no rule lines it always succeeds.
pub fn build_matcher(lines: &Vec<String>) -> (r: Result<Gitignore, BuildError>)
    ensures
        (r is Ok) == globset_ok(lines@.map_values(|l: String| l@).filter(rule_pred())),
        lines@.map_values(|l: String| l@).filter(rule_pred()).len() == 0 ==> r is Ok,
        match r {
            Ok(g) => matcher_lines(g) == lines@.map_values(|l: String| l@).filter(rule_pred()),
            Err(_) => true,
        },
{
    let ghost views = lines@.map_values(|l: String| l@);
    let mut b = builder_new();
    let mut i: usize = 0;
    proof {
        reveal(Seq::filter);
        assert(views.take(0int) =~= Seq::<Seq<char>>::empty());
        assert(views.take(0int).filter(rule_pred()) =~= Seq::<Seq<char>>::empty());
    }
    while i < lines.len()
        invariant
            i <= lines@.len(),
            views == lines@.map_values(|l: String| l@),
            builder_lines(b) == views.take(i as int).filter(rule_pred()),
        decreases lines@.len() - i,
    {
        let feed = is_rule_line_exec(lines[i].as_str());
        if feed {
            let _accepted = builder_add_line(&mut b, lines[i].as_str());
        }
        proof {
            reveal(Seq::filter);
            let f = rule_pred();
            let t1 = views.take(i as int + 1);
            assert(t1.drop_last() =~= views.take(i as int));
            assert(t1.last() == views[i as int]);
            assert(t1.filter(f) == if f(views[i as int]) {
                views.take(i as int).filter(f).push(views[i as int])
            } else {
                views.take(i as int).filter(f)
            });
        }
        i = i + 1;
    }
    proof {
        assert(views.take(lines@.len() as int) =~= views);
    }
    match builder_build(&b) {
        Ok(g) => Ok(g),
        Err(_) => Err(BuildError::Compile),
    }
}

/// The components joined with `/` into one relative path.
pub open spec fn join_path(comps: Seq<Seq<char>>) -> Seq<char>
    decreases comps.len(),
{
    if comps.len() == 0 {
        Seq::empty()
    } else if comps.len() == 1 {
        comps[0]
    } else {
        join_path(comps.drop_last()) + "/"@ + comps.last()
    }
}

/// Some proper ancestor directory of the path is excluded by the rules.
pub open spec fn ancestor_excluded(rules: Seq<Seq<char>>, comps: Seq<Seq<char>>) -> bool {
    exists|k: int|
        1 <= k < comps.len() && verdict_of(rules, join_path(comps.take(k)), true)
            == Verdict::Ignored
}

/// Whether the path given by `comps` (relative to the scan root, root itself
/// excluded) is ignored: an empty rule set ignores nothing; otherwise the
/// path is ignored when some proper ancestor directory is excluded —
/// regardless of any rule matching the path itself — or, failing that, when
/// the last rule matching the path itself excludes it.
pub open spec fn spec_is_ignored(
    rules: Seq<Seq<char>>,
    comps: Seq<Seq<char>>,
    is_dir: bool,
) -> bool {
    if rules.len() == 0 || comps.len() == 0 {
        false
    } else {
        ancestor_excluded(rules, comps) || verdict_of(rules, join_path(comps), is_dir)
            == Verdict::Ignored
    }
}

/// Ancestor exclusion dominates: when a proper ancestor directory of a path
/// is excluded by the rules, the path is ignored, even where a rule — for
/// instance a later negation — would re-include the path itself.
pub proof fn lemma_ancestor_exclusion_dominates(
    rules: Seq<Seq<char>>,
    comps: Seq<Seq<char>>,
    is_dir: bool,
    k: int,
)
    requires
        rules.len() > 0,
        1 <= k < comps.len(),
        verdict_of(rules, join_path(comps.take(k)), true) == Verdict::Ignored,
    ensures
        spec_is_ignored(rules, comps, is_dir),
{
}

/// An empty rule set never ignores a path.
pub proof fn lemma_empty_rules_ignore_nothing(comps: Seq<Seq<char>>, is_dir: bool)
    ensures
        !spec_is_ignored(Seq::<Seq<char>>::empty(), comps, is_dir),
{
}

/// Decides whether the path given by its components relative to the scan
/// root is ignored by the rule set, with ancestor exclusion dominating any
/// match of the path itself.
pub fn is_ignored(g: &Gitignore, comps: &Vec<String>, is_dir: bool) -> (r: bool)
    ensures
        r == spec_is_ignored(matcher_lines(*g), comps@.map_values(|c: String| c@), is_dir),
{
    let ghost rules = matcher_lines(*g);
    let ghost cs = comps@.map_values(|c: String| c@);
    let n = comps.len();
    if n == 0 {
        return false;
    }
    let mut path = String::new();
    let mut exc = false;
    let mut i: usize = 0;
    while i < n
        invariant
            i <= n,
            n == cs.len(),
            cs == comps@.map_values(|c: String| c@),
            rules == matcher_lines(*g),
            path@ == join_path(cs.take(i as int)),
            exc == exists|k: int|
                1 <= k <= i && k < n && verdict_of(rules, join_path(cs.take(k)), true)
                    == Verdict::Ignored,
            rules.len() == 0 ==> !exc,
        decreases n - i,
    {
        if i > 0 {
            path.append("/");
        }
        path.append(comps[i].as_str());
        proof {
            if i > 0 {
                assert(cs.take(i as int + 1).drop_last() =~= cs.take(i as int));
                assert(cs.take(i as int + 1).last() == cs[i as int]);
            }
            assert(path@ == join_path(cs.take(i as int + 1)));
        }
        if i + 1 < n {
            let v = matcher_query(g, path.as_str(), true);
            if v == Verdict::Ignored {
                exc = true;
                proof {
                    assert(1 <= i as int + 1 <= i + 1 && i as int + 1 < n && verdict_of(
                        rules,
                        join_path(cs.take(i as int + 1)),
                        true,
                    ) == Verdict::Ignored);
                }
            }
        }
        i = i + 1;
    }
    proof {
        assert(cs.take(n as int) =~= cs);
    }
    if exc {
        true
    } else {
        let v = matcher_query(g, path.as_str(), is_dir);
        v == Verdict::Ignored
    }
}

} // verus!
