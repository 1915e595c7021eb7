use dirtree::generate_tree;
use dirtree::icon::get_icon;
use dirtree::matcher::build_matcher;
use dirtree::matcher::is_ignored;
use dirtree::render::render;
use dirtree::splice::{find_str, splice_tree};
use dirtree::tree::{build_entries, str_le, Entry, FsNode};

fn file(name: &str) -> FsNode {
    FsNode { name: String::from(name), is_dir: false, children: vec![] }
}

fn dir(name: &str, children: Vec<FsNode>) -> FsNode {
    FsNode { name: String::from(name), is_dir: true, children }
}

fn comps(parts: &[&str]) -> Vec<String> {
    parts.iter().map(|p| String::from(*p)).collect()
}

#[test]
fn test_get_icon() {
    assert_eq!(get_icon("folder", true), "📁");
    assert_eq!(get_icon("script.sh", false), "📜");
    assert_eq!(get_icon("config.yml", false), "🔧");
    assert_eq!(get_icon("key.pem", false), "🔑");
    assert_eq!(get_icon("readme.md", false), "📝");
    assert_eq!(get_icon("notes.txt", false), "📄");
    assert_eq!(get_icon("query.sql", false), "📊");
    assert_eq!(get_icon("unknown.xyz", false), "📄");
}

#[test]
fn icon_extension_is_case_insensitive() {
    assert_eq!(get_icon("README.MD", false), "📝");
    assert_eq!(get_icon("Setup.Yaml", false), "🔧");
    assert_eq!(get_icon("run.SH", false), "📜");
}

#[test]
fn icon_without_extension_is_default() {
    assert_eq!(get_icon("Makefile", false), "📄");
    assert_eq!(get_icon("yml", false), "📄");
    assert_eq!(get_icon("", false), "📄");
    assert_eq!(get_icon("ends.", false), "📄");
}

#[test]
fn test_should_ignore() {
    let lines = comps(&["*.log", "node_modules/", "build/"]);
    let gitignore = build_matcher(&lines).unwrap();

    assert!(
        is_ignored(&gitignore, &comps(&["error.log"]), false),
        "error.log should be ignored"
    );
    assert!(
        !is_ignored(&gitignore, &comps(&["main.rs"]), false),
        "main.rs should not be ignored"
    );
    assert!(
        is_ignored(&gitignore, &comps(&["node_modules"]), true),
        "node_modules should be ignored"
    );
    assert!(is_ignored(&gitignore, &comps(&["build"]), true), "build should be ignored");
    assert!(!is_ignored(&gitignore, &comps(&["src"]), true), "src should not be ignored");
    assert!(
        is_ignored(&gitignore, &comps(&["node_modules", "package.json"]), false),
        "node_modules/package.json should be ignored"
    );
    assert!(
        is_ignored(&gitignore, &comps(&["build", "output.txt"]), false),
        "build/output.txt should be ignored"
    );
    assert!(
        !is_ignored(&gitignore, &comps(&["src", "main.rs"]), false),
        "src/main.rs should not be ignored"
    );
}

#[test]
fn test_generate_tree() {
    let root = dir(
        "project",
        vec![
            dir("src", vec![file("main.rs")]),
            dir("tests", vec![]),
            file("Cargo.toml"),
            file("README.md"),
        ],
    );
    let gitignore = build_matcher(&vec![]).unwrap();
    let tree = generate_tree(&root, &gitignore, 0);

    let expected_tree =
        "📁 project\n   📁 src\n      📄 main.rs\n   📁 tests\n   📄 Cargo.toml\n   📝 README.md\n";
    assert_eq!(tree, expected_tree);
}

#[test]
fn test_update_readme() {
    let initial_content = "# My Project\n\nSome description.\n\n## Features\n\n- Feature 1\n- Feature 2\n";
    let tree = "📁 project\n   📄 file1.txt\n   📄 file2.txt\n";
    let updated_content = splice_tree(initial_content, tree);
    let expected_content =
        format!("{}## Directory Structure\n\n```\n{}\n```\n", initial_content, tree);
    assert_eq!(updated_content, expected_content);
}

#[test]
fn splice_replaces_existing_block_before_next_heading() {
    let content = "# T\n\n## Directory Structure\n\nold text\n\n## Usage\n\nrun it\n";
    let tree = "📁 p\n";
    let updated = splice_tree(content, tree);
    assert_eq!(updated, "# T\n\n## Directory Structure\n\n```\n📁 p\n\n```\n\n## Usage\n\nrun it\n");
}

#[test]
fn splice_replaces_to_end_when_no_later_heading() {
    let content = "# T\n\n## Directory Structure\n\nold tail";
    let updated = splice_tree(content, "x\n");
    assert_eq!(updated, "# T\n\n## Directory Structure\n\n```\nx\n\n```\n");
}

#[test]
fn splice_appends_to_empty_document() {
    let updated = splice_tree("", "📁 p\n");
    assert_eq!(updated, "## Directory Structure\n\n```\n📁 p\n\n```\n");
}

#[test]
fn find_str_reports_first_occurrence() {
    assert_eq!(find_str("abcabc", "bc", 0), Some(1));
    assert_eq!(find_str("abcabc", "bc", 2), Some(4));
    assert_eq!(find_str("abcabc", "zz", 0), None);
    assert_eq!(find_str("abc", "", 1), Some(1));
    assert_eq!(find_str("abc", "abcd", 0), None);
}

#[test]
fn concrete_scenario_excludes_ignored_subtrees() {
    let lines = comps(&["*.log", "node_modules/", "build/"]);
    let gitignore = build_matcher(&lines).unwrap();
    let root = dir(
        "project",
        vec![
            file("error.log"),
            dir("node_modules", vec![file("package.json")]),
            dir("build", vec![file("output.txt")]),
            dir("src", vec![file("main.x")]),
            file("Cargo.toml"),
            file("README.md"),
        ],
    );
    let tree = generate_tree(&root, &gitignore, 0);
    let expected = "📁 project\n   📁 src\n      📄 main.x\n   📄 Cargo.toml\n   📝 README.md\n";
    assert_eq!(tree, expected);
}

#[test]
fn ancestor_exclusion_beats_negation() {
    let lines = comps(&["node_modules/", "!node_modules/keep.txt"]);
    let gitignore = build_matcher(&lines).unwrap();
    assert!(is_ignored(&gitignore, &comps(&["node_modules"]), true));
    assert!(
        is_ignored(&gitignore, &comps(&["node_modules", "keep.txt"]), false),
        "a negation below an excluded directory must not re-include"
    );
    assert!(is_ignored(&gitignore, &comps(&["node_modules", "sub", "deep.js"]), false));
}

#[test]
fn negation_without_excluded_ancestor_reincludes() {
    let lines = comps(&["*.log", "!keep.log"]);
    let gitignore = build_matcher(&lines).unwrap();
    assert!(is_ignored(&gitignore, &comps(&["error.log"]), false));
    assert!(!is_ignored(&gitignore, &comps(&["keep.log"]), false));
}

#[test]
fn empty_rule_set_ignores_nothing() {
    let gitignore = build_matcher(&vec![]).unwrap();
    assert!(!is_ignored(&gitignore, &comps(&["error.log"]), false));
    assert!(!is_ignored(&gitignore, &comps(&["node_modules"]), true));
    assert!(!is_ignored(&gitignore, &comps(&["a", "b", "c"]), false));
}

#[test]
fn blank_and_comment_lines_ignore_nothing() {
    let lines = comps(&["", "# a comment", "   "]);
    let gitignore = build_matcher(&lines).unwrap();
    assert!(!is_ignored(&gitignore, &comps(&["anything"]), false));
    assert!(!is_ignored(&gitignore, &comps(&["# a comment"]), false));
}

#[test]
fn malformed_glob_line_is_dropped_but_rest_applies() {
    let lines = comps(&["a{b,c", "*.log"]);
    let gitignore = build_matcher(&lines).unwrap();
    assert!(is_ignored(&gitignore, &comps(&["error.log"]), false));
    assert!(!is_ignored(&gitignore, &comps(&["other.txt"]), false));
}

#[test]
fn root_is_emitted_even_when_its_name_matches_a_rule() {
    let lines = comps(&["project", "project/"]);
    let gitignore = build_matcher(&lines).unwrap();
    let root = dir("project", vec![file("a.txt")]);
    let tree = generate_tree(&root, &gitignore, 0);
    assert!(tree.starts_with("📁 project\n"));
}

#[test]
fn depth_limit_is_exact() {
    let root = dir(
        "r",
        vec![dir("a", vec![dir("b", vec![file("c.txt")]), file("f1.txt")]), file("f0.txt")],
    );
    let gitignore = build_matcher(&vec![]).unwrap();

    let depth1 = build_entries(&root, &gitignore, 1);
    let names1: Vec<&str> = depth1.iter().map(|e: &Entry| e.name.as_str()).collect();
    assert_eq!(names1, vec!["r", "a", "f0.txt"]);
    assert!(depth1.iter().all(|e: &Entry| e.depth <= 1));

    let depth2 = build_entries(&root, &gitignore, 2);
    let names2: Vec<&str> = depth2.iter().map(|e: &Entry| e.name.as_str()).collect();
    assert_eq!(names2, vec!["r", "a", "b", "f1.txt", "f0.txt"]);

    let unlimited = build_entries(&root, &gitignore, 0);
    let names0: Vec<&str> = unlimited.iter().map(|e: &Entry| e.name.as_str()).collect();
    assert_eq!(names0, vec!["r", "a", "b", "c.txt", "f1.txt", "f0.txt"]);
}

#[test]
fn ordering_is_deterministic_directories_first_then_names() {
    let root = dir(
        "r",
        vec![
            file("zeta.txt"),
            dir("beta", vec![]),
            file("alpha.txt"),
            dir("alpha", vec![]),
            file("Beta.txt"),
        ],
    );
    let gitignore = build_matcher(&vec![]).unwrap();
    let first = build_entries(&root, &gitignore, 0);
    let second = build_entries(&root, &gitignore, 0);

    let names: Vec<&str> = first.iter().map(|e: &Entry| e.name.as_str()).collect();
    assert_eq!(names, vec!["r", "alpha", "beta", "Beta.txt", "alpha.txt", "zeta.txt"]);

    assert_eq!(first.len(), second.len());
    for (a, b) in first.iter().zip(second.iter()) {
        assert_eq!(a.name, b.name);
        assert_eq!(a.depth, b.depth);
        assert_eq!(a.is_dir, b.is_dir);
    }
}

#[test]
fn rendering_is_idempotent() {
    let root = dir("r", vec![dir("d", vec![file("x.md")]), file("a.sh")]);
    let gitignore = build_matcher(&vec![]).unwrap();
    let entries = build_entries(&root, &gitignore, 0);
    let once = render(&entries);
    let twice = render(&entries);
    assert_eq!(once, twice);
    assert_eq!(once, "📁 r\n   📁 d\n      📝 x.md\n   📜 a.sh\n");
}

#[test]
fn str_le_orders_by_code_point() {
    assert!(str_le("abc", "abd"));
    assert!(str_le("abc", "abc"));
    assert!(!str_le("abd", "abc"));
    assert!(str_le("ab", "abc"));
    assert!(str_le("Zebra", "apple"));
    assert!(!str_le("apple", "Zebra"));
}

#[test]
fn directory_only_pattern_does_not_match_a_file() {
    let lines = comps(&["build/"]);
    let gitignore = build_matcher(&lines).unwrap();
    assert!(is_ignored(&gitignore, &comps(&["build"]), true));
    assert!(
        !is_ignored(&gitignore, &comps(&["build"]), false),
        "a trailing slash anchors the rule to directories"
    );
}
