use dirtree::entry::Entry;
use dirtree::render::{branch_glyph, child_prefix, compose_line, label_of, paint, Row};

fn row(name: &str, prefix: &str, last: bool, is_dir: bool, is_symlink: bool) -> Row {
    Row {
        entry: Entry::new(name.to_string(), true, format!("r/{name}"), is_dir, is_symlink, None),
        prefix: prefix.to_string(),
        last,
        level: prefix.chars().count() / 4,
    }
}

#[test]
fn branch_glyphs() {
    assert_eq!(branch_glyph(false), "├── ");
    assert_eq!(branch_glyph(true), "└── ");
}

#[test]
fn child_prefix_adds_one_segment() {
    assert_eq!(child_prefix("", false), "│   ");
    assert_eq!(child_prefix("", true), "    ");
    assert_eq!(child_prefix("│   ", true), "│       ");
    assert_eq!(child_prefix("    ", false), "    │   ");
}

#[test]
fn line_is_prefix_branch_name() {
    assert_eq!(compose_line("", false, "a.txt"), "├── a.txt");
    assert_eq!(compose_line("│   ", true, "b"), "│   └── b");
    assert_eq!(compose_line("    │   ", false, ""), "    │   ├── ");
}

#[test]
fn label_is_the_name_or_a_fixed_word() {
    let good = Entry::new("a".to_string(), true, "r/a".to_string(), false, false, None);
    let bad = Entry::new("a\u{fffd}".to_string(), false, "r/a\u{fffd}".to_string(), false, false, None);
    assert_eq!(label_of(&good), "a");
    assert_eq!(label_of(&bad), "<invalid>");
}

#[test]
fn plain_file_is_never_styled() {
    assert_eq!(paint("a.txt", false, false), "a.txt");
    assert_eq!(paint("", false, false), "");
    assert_eq!(row("a.txt", "│   ", false, false, false).line(), "│   ├── a.txt");
    assert_eq!(row("a.txt", "", true, false, false).line(), "└── a.txt");
}

/// The one test that switches the colours of `colored`, which are global.
#[test]
fn styles_with_colours_on_and_off() {
    colored::control::set_override(true);
    assert_eq!(paint("d", true, false), "\u{1b}[1;34md\u{1b}[0m");
    assert_eq!(paint("l", false, true), "\u{1b}[3;33ml\u{1b}[0m");
    assert_eq!(paint("dl", true, true), "\u{1b}[1;3;33mdl\u{1b}[0m");
    assert_eq!(paint("f", false, false), "f");
    assert_eq!(row("d", "    ", true, true, false).line(), "    └── \u{1b}[1;34md\u{1b}[0m");
    assert_eq!(row("l", "", false, false, true).line(), "├── \u{1b}[3;33ml\u{1b}[0m");
    assert_eq!(row("f", "│   ", true, false, false).line(), "│   └── f");

    // a name that holds the reset sequence is longer when written with a
    // style, and still ends with the reset sequence
    let odd = "a\u{1b}[0mb";
    let shown = paint(odd, true, false);
    assert!(shown.starts_with("\u{1b}["));
    assert!(shown.ends_with("\u{1b}[0m"));
    assert!(shown.chars().count() >= odd.chars().count() + 4);
    assert_eq!(shown, "\u{1b}[1;34ma\u{1b}[0m\u{1b}[1;34mb\u{1b}[0m");

    colored::control::set_override(false);
    assert_eq!(paint("d", true, false), "d");
    assert_eq!(paint("l", false, true), "l");
    assert_eq!(paint("dl", true, true), "dl");
    assert_eq!(paint(odd, true, true), odd);
    assert_eq!(row("d", "    ", true, true, false).line(), "    └── d");
    assert_eq!(row("l", "", false, false, true).line(), "├── l");
    colored::control::unset_override();
}

#[test]
fn styled_line_is_the_plain_line_or_escaped() {
    for (is_dir, is_symlink) in [(true, false), (false, true), (true, true)] {
        let r = row("name", "│   ", false, is_dir, is_symlink);
        let line = r.line();
        let plain = r.plain_line();
        let head = "│   ├── ";
        assert!(line.starts_with(head));
        let shown = &line[head.len()..];
        assert!(line == plain || shown.ends_with("name\u{1b}[0m"), "{line:?}");
    }
}

#[test]
fn plain_line_ignores_the_kind() {
    assert_eq!(row("d", "", false, true, false).plain_line(), "├── d");
    assert_eq!(row("l", "│   ", true, false, true).plain_line(), "│   └── l");
    assert_eq!(row("f", "    ", true, false, false).plain_line(), "    └── f");
}
