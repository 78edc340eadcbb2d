use dirtree::filter::{contains_name, is_default_ignored, is_ignored};

fn names(list: &[&str]) -> Vec<String> {
    list.iter().map(|s| s.to_string()).collect()
}

#[test]
fn default_list_is_left_out() {
    for name in [
        ".git",
        ".hg",
        ".svn",
        ".DS_Store",
        "node_modules",
        "target",
        "dist",
        "build",
        ".cache",
        ".next",
        ".turbo",
        ".vercel",
        ".idea",
        ".vscode",
        "venv",
        "__pycache__",
        ".pytest_cache",
        ".mypy_cache",
        ".tox",
        "out",
        "coverage",
        ".parcel-cache",
    ] {
        assert!(is_default_ignored(name), "{name}");
        assert!(is_ignored(name, false, &[], &[]), "{name}");
    }
}

#[test]
fn ordinary_names_are_shown() {
    for name in ["src", "a.txt", "README.md", ".gitignore", "Target", "git", "", "outs"] {
        assert!(!is_default_ignored(name), "{name}");
        assert!(!is_ignored(name, false, &[], &[]), "{name}");
        assert!(!is_ignored(name, true, &[], &[]), "{name}");
    }
}

#[test]
fn show_all_disables_the_default_list() {
    assert!(!is_ignored(".git", true, &[], &[]));
    assert!(!is_ignored("node_modules", true, &[], &names(&["node_modules"])));
}

#[test]
fn custom_ignore_wins_over_everything() {
    let ignore = names(&["secret", ".git"]);
    assert!(is_ignored("secret", false, &ignore, &[]));
    assert!(is_ignored("secret", true, &ignore, &[]));
    assert!(is_ignored("secret", true, &ignore, &names(&["secret"])));
    assert!(is_ignored("secret", false, &ignore, &names(&["secret"])));
    assert!(is_ignored(".git", true, &ignore, &names(&[".git"])));
}

#[test]
fn include_rescues_only_default_names() {
    let keep = names(&["target", "plain"]);
    assert!(!is_ignored("target", false, &[], &keep));
    assert!(is_ignored("dist", false, &[], &keep));
    assert!(!is_ignored("plain", false, &[], &keep));
    assert!(!is_ignored("plain", false, &[], &[]));
}

#[test]
fn ignore_beats_include_for_the_same_name() {
    let both = names(&["target"]);
    assert!(is_ignored("target", false, &both, &both));
    assert!(is_ignored("target", true, &both, &both));
}

#[test]
fn names_match_whole_and_case_sensitive() {
    let list = names(&["abc", "é"]);
    assert!(contains_name(&list, "abc"));
    assert!(contains_name(&list, "é"));
    assert!(!contains_name(&list, "ab"));
    assert!(!contains_name(&list, "abcd"));
    assert!(!contains_name(&list, "ABC"));
    assert!(!contains_name(&list, "e"));
    assert!(!contains_name(&[], "abc"));
}
