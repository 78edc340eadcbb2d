use dirtree::config::Config;
use dirtree::entry::Entry;
use dirtree::snapshot::{walk, Snapshot};
use dirtree::stats::Stats;
use dirtree::walker::{Step, Walker};

fn file(dir: &str, name: &str, size: u64) -> Entry {
    Entry::new(name.to_string(), true, format!("{dir}/{name}"), false, false, Some(size))
}

fn dir(parent: &str, name: &str) -> Entry {
    Entry::new(name.to_string(), true, format!("{parent}/{name}"), true, false, Some(4096))
}

fn config(root: &str) -> Config {
    Config {
        root: root.to_string(),
        max_depth: None,
        show_all: false,
        ignores: Vec::new(),
        includes: Vec::new(),
        collect_stats: false,
    }
}

fn plain_lines(snapshot: &Snapshot, config: Config) -> Vec<String> {
    let outcome = walk(snapshot, config).expect("the counters are large enough");
    outcome.rows.iter().map(|r| r.plain_line()).collect()
}

fn counts(stats: &Option<Stats>) -> (usize, usize, u64) {
    let s = stats.as_ref().expect("the traversal counts");
    (s.dir_count, s.file_count, s.total_size)
}

/// `root` holds `a.txt` (5 bytes), the empty directory `b`, and `.git`.
fn small_tree() -> Snapshot {
    let mut s = Snapshot::new();
    s.add(
        "root".to_string(),
        vec![dir("root", "b"), dir("root", ".git"), file("root", "a.txt", 5)],
    );
    s.add("root/b".to_string(), vec![]);
    s.add("root/.git".to_string(), vec![file("root/.git", "HEAD", 23)]);
    s
}

/// `root` holds `x`, which holds `y`, which holds `z.txt`.
fn nested_tree() -> Snapshot {
    let mut s = Snapshot::new();
    s.add("root".to_string(), vec![dir("root", "x")]);
    s.add("root/x".to_string(), vec![dir("root/x", "y")]);
    s.add("root/x/y".to_string(), vec![file("root/x/y", "z.txt", 1)]);
    s
}

#[test]
fn default_run_lists_sorted_and_omits_git() {
    let lines = plain_lines(&small_tree(), config("root"));
    assert_eq!(lines, vec!["├── a.txt", "└── b"]);
}

#[test]
fn show_all_lists_git_too() {
    let mut c = config("root");
    c.show_all = true;
    let lines = plain_lines(&small_tree(), c);
    assert_eq!(lines, vec!["├── .git", "│   └── HEAD", "├── a.txt", "└── b"]);
}

#[test]
fn stats_of_default_run() {
    let mut c = config("root");
    c.collect_stats = true;
    let outcome = walk(&small_tree(), c).unwrap();
    assert_eq!(counts(&outcome.stats), (1, 1, 5));
    assert_eq!(outcome.rows.len(), 2);
}

#[test]
fn stats_with_show_all() {
    let mut c = config("root");
    c.collect_stats = true;
    c.show_all = true;
    c.max_depth = Some(1);
    let outcome = walk(&small_tree(), c).unwrap();
    assert_eq!(counts(&outcome.stats), (2, 1, 5));
}

#[test]
fn no_stats_unless_asked() {
    let outcome = walk(&small_tree(), config("root")).unwrap();
    assert!(outcome.stats.is_none());
}

#[test]
fn depth_one_lists_only_the_first_level() {
    let mut c = config("root");
    c.max_depth = Some(1);
    let lines = plain_lines(&nested_tree(), c);
    assert_eq!(lines, vec!["└── x"]);
}

#[test]
fn depth_two_stops_above_the_file() {
    let mut c = config("root");
    c.max_depth = Some(2);
    let lines = plain_lines(&nested_tree(), c);
    assert_eq!(lines, vec!["└── x", "    └── y"]);
}

#[test]
fn depth_zero_lists_nothing() {
    let mut c = config("root");
    c.max_depth = Some(0);
    c.collect_stats = true;
    let outcome = walk(&nested_tree(), c).unwrap();
    assert!(outcome.rows.is_empty());
    assert_eq!(counts(&outcome.stats), (0, 0, 0));
}

#[test]
fn unlimited_depth_lists_everything() {
    let lines = plain_lines(&nested_tree(), config("root"));
    assert_eq!(lines, vec!["└── x", "    └── y", "        └── z.txt"]);
}

#[test]
fn unreadable_directory_is_listed_without_children() {
    let mut s = Snapshot::new();
    s.add(
        "root".to_string(),
        vec![dir("root", "locked"), file("root", "z.txt", 7), dir("root", "open")],
    );
    s.add("root/open".to_string(), vec![file("root/open", "in.txt", 2)]);
    let mut c = config("root");
    c.collect_stats = true;
    let outcome = walk(&s, c).unwrap();
    let lines: Vec<String> = outcome.rows.iter().map(|r| r.plain_line()).collect();
    assert_eq!(lines, vec!["├── locked", "├── open", "│   └── in.txt", "└── z.txt"]);
    assert_eq!(counts(&outcome.stats), (2, 2, 9));
}

#[test]
fn unreadable_root_lists_nothing() {
    let lines = plain_lines(&Snapshot::new(), config("missing"));
    assert!(lines.is_empty());
}

#[test]
fn files_and_directories_interleave_by_path() {
    let mut s = Snapshot::new();
    s.add(
        "r".to_string(),
        vec![
            file("r", "d.txt", 1),
            dir("r", "c"),
            file("r", "B", 1),
            dir("r", "a"),
            file("r", "a.b", 1),
            file("r", "Z", 1),
        ],
    );
    let lines = plain_lines(&s, config("r"));
    assert_eq!(lines, vec!["├── B", "├── Z", "├── a", "├── a.b", "├── c", "└── d.txt"]);
}

#[test]
fn order_does_not_depend_on_listing_order() {
    let mut forward = Snapshot::new();
    forward.add("r".to_string(), vec![file("r", "1", 1), dir("r", "2"), file("r", "3", 1)]);
    let mut backward = Snapshot::new();
    backward.add("r".to_string(), vec![file("r", "3", 1), dir("r", "2"), file("r", "1", 1)]);
    assert_eq!(plain_lines(&forward, config("r")), plain_lines(&backward, config("r")));
}

#[test]
fn prefix_follows_the_last_sibling_rule() {
    let mut s = Snapshot::new();
    s.add("r".to_string(), vec![dir("r", "a"), dir("r", "b")]);
    s.add("r/a".to_string(), vec![dir("r/a", "x"), file("r/a", "y", 1)]);
    s.add("r/a/x".to_string(), vec![file("r/a/x", "deep", 1)]);
    s.add("r/b".to_string(), vec![file("r/b", "w", 1)]);
    let lines = plain_lines(&s, config("r"));
    assert_eq!(
        lines,
        vec![
            "├── a",
            "│   ├── x",
            "│   │   └── deep",
            "│   └── y",
            "└── b",
            "    └── w",
        ]
    );
}

#[test]
fn rows_carry_level_and_prefix() {
    let outcome = walk(&nested_tree(), config("root")).unwrap();
    let levels: Vec<usize> = outcome.rows.iter().map(|r| r.level).collect();
    assert_eq!(levels, vec![0, 1, 2]);
    for r in &outcome.rows {
        assert_eq!(r.prefix.chars().count(), 4 * r.level);
        assert!(r.last);
    }
}

#[test]
fn custom_ignore_hides_a_subtree() {
    let mut c = config("root");
    c.ignores = vec!["x".to_string()];
    c.collect_stats = true;
    let outcome = walk(&nested_tree(), c).unwrap();
    assert!(outcome.rows.is_empty());
    assert_eq!(counts(&outcome.stats), (0, 0, 0));
}

#[test]
fn force_included_default_name_is_listed() {
    let mut c = config("root");
    c.includes = vec![".git".to_string()];
    let lines = plain_lines(&small_tree(), c);
    assert_eq!(lines, vec!["├── .git", "│   └── HEAD", "├── a.txt", "└── b"]);
}

#[test]
fn unreadable_size_counts_the_file_but_no_bytes() {
    let mut s = Snapshot::new();
    s.add(
        "r".to_string(),
        vec![
            Entry::new("gone".to_string(), true, "r/gone".to_string(), false, true, None),
            file("r", "here", 11),
        ],
    );
    let mut c = config("r");
    c.collect_stats = true;
    let outcome = walk(&s, c).unwrap();
    assert_eq!(counts(&outcome.stats), (0, 2, 11));
}

#[test]
fn directory_sizes_are_not_counted() {
    let mut s = Snapshot::new();
    s.add("r".to_string(), vec![dir("r", "d")]);
    let mut c = config("r");
    c.collect_stats = true;
    let outcome = walk(&s, c).unwrap();
    assert_eq!(counts(&outcome.stats), (1, 0, 0));
}

#[test]
fn byte_total_that_does_not_fit_gives_no_outcome() {
    let mut s = Snapshot::new();
    s.add("r".to_string(), vec![file("r", "a", u64::MAX), file("r", "b", 1)]);
    let mut c = config("r");
    c.collect_stats = true;
    assert!(walk(&s, c).is_none());
    assert_eq!(walk(&s, config("r")).unwrap().rows.len(), 2);
}

#[test]
fn byte_total_at_the_limit_fits() {
    let mut s = Snapshot::new();
    s.add("r".to_string(), vec![file("r", "a", u64::MAX - 1), file("r", "b", 1)]);
    let mut c = config("r");
    c.collect_stats = true;
    assert_eq!(counts(&walk(&s, c).unwrap().stats), (0, 2, u64::MAX));
}

#[test]
fn two_runs_give_the_same_rows() {
    let s = small_tree();
    assert_eq!(plain_lines(&s, config("root")), plain_lines(&s, config("root")));
}

#[test]
fn later_listing_of_a_path_replaces_the_earlier() {
    let mut s = Snapshot::new();
    s.add("r".to_string(), vec![file("r", "old", 1)]);
    s.add("r".to_string(), vec![file("r", "new", 1)]);
    assert_eq!(plain_lines(&s, config("r")), vec!["└── new"]);
}

#[test]
fn name_that_is_no_text_is_shown_as_invalid() {
    let mut s = Snapshot::new();
    s.add(
        "r".to_string(),
        vec![Entry::new("bad\u{fffd}".to_string(), false, "r/bad\u{fffd}".to_string(), false, false, Some(1))],
    );
    assert_eq!(plain_lines(&s, config("r")), vec!["└── <invalid>"]);
}

#[test]
fn walker_asks_for_the_root_first() {
    let mut w = Walker::new(config("root"));
    match w.next() {
        Step::Read(path) => assert_eq!(path, "root"),
        _ => panic!("the walker must ask for the root"),
    }
    match w.next() {
        Step::Read(path) => assert_eq!(path, "root"),
        _ => panic!("the walker must ask again"),
    }
    w.supply(None);
    assert!(matches!(w.next(), Step::Done));
    assert!(matches!(w.next(), Step::Done));
}

#[test]
fn walker_does_not_ask_below_the_depth_limit() {
    let mut c = config("root");
    c.max_depth = Some(1);
    let mut w = Walker::new(c);
    assert!(matches!(w.next(), Step::Read(_)));
    w.supply(Some(vec![dir("root", "x")]));
    assert!(w.can_step());
    match w.next() {
        Step::Show(row) => assert_eq!(row.plain_line(), "└── x"),
        _ => panic!("the walker must show the directory"),
    }
    assert!(matches!(w.next(), Step::Done));
}

#[test]
fn walker_with_depth_zero_is_done_at_once() {
    let mut c = config("root");
    c.max_depth = Some(0);
    let mut w = Walker::new(c);
    assert!(matches!(w.next(), Step::Done));
}

#[test]
fn walker_ignores_a_listing_it_did_not_ask_for() {
    let mut w = Walker::new(config("root"));
    assert!(matches!(w.next(), Step::Read(_)));
    w.supply(Some(vec![file("root", "a", 1)]));
    w.supply(Some(vec![file("root", "b", 1)]));
    match w.next() {
        Step::Show(row) => assert_eq!(row.entry.name, "a"),
        _ => panic!("the walker must show the file"),
    }
    assert!(matches!(w.next(), Step::Done));
}

#[test]
fn walker_counts_before_it_asks_for_the_children() {
    let mut c = config("root");
    c.collect_stats = true;
    let mut w = Walker::new(c);
    assert!(matches!(w.next(), Step::Read(_)));
    w.supply(Some(vec![dir("root", "x")]));
    assert!(matches!(w.next(), Step::Show(_)));
    let s = w.stats().unwrap();
    assert_eq!((s.dir_count, s.file_count, s.total_size), (1, 0, 0));
    match w.next() {
        Step::Read(path) => assert_eq!(path, "root/x"),
        _ => panic!("the walker must ask for the directory"),
    }
}

#[test]
fn walker_reports_full_counters() {
    let mut c = config("root");
    c.collect_stats = true;
    let mut w = Walker::new(c);
    assert!(matches!(w.next(), Step::Read(_)));
    w.supply(Some(vec![file("root", "a", u64::MAX), file("root", "b", 1)]));
    assert!(w.can_step());
    assert!(matches!(w.next(), Step::Show(_)));
    assert!(!w.can_step());
}

#[test]
fn try_next_gives_no_step_without_room() {
    let mut c = config("root");
    c.collect_stats = true;
    let mut w = Walker::new(c);
    assert!(matches!(w.try_next(), Some(Step::Read(_))));
    w.supply(Some(vec![file("root", "a", u64::MAX), file("root", "b", 1)]));
    assert!(matches!(w.try_next(), Some(Step::Show(_))));
    assert!(w.try_next().is_none());
    assert!(w.try_next().is_none());
    let s = w.stats().unwrap();
    assert_eq!((s.dir_count, s.file_count, s.total_size), (0, 1, u64::MAX));
}

#[test]
fn try_next_walks_to_the_end() {
    let snapshot = nested_tree();
    let mut w = Walker::new(config("root"));
    let mut lines = Vec::new();
    let mut reads = Vec::new();
    loop {
        match w.try_next().unwrap() {
            Step::Read(path) => {
                w.supply(snapshot.list(&path));
                reads.push(path);
            }
            Step::Show(row) => lines.push(row.plain_line()),
            Step::Done => break,
        }
    }
    assert_eq!(lines, vec!["└── x", "    └── y", "        └── z.txt"]);
    assert_eq!(reads, vec!["root", "root/x", "root/x/y"]);
}

#[test]
fn ignored_directories_are_never_read() {
    let snapshot = small_tree();
    let mut w = Walker::new(config("root"));
    let mut reads = Vec::new();
    loop {
        match w.try_next().unwrap() {
            Step::Read(path) => {
                w.supply(snapshot.list(&path));
                reads.push(path);
            }
            Step::Show(_) => {}
            Step::Done => break,
        }
    }
    assert_eq!(reads, vec!["root", "root/b"]);
}

#[test]
fn snapshot_lists_what_was_added() {
    let s = small_tree();
    let names: Vec<String> = s.list("root").unwrap().iter().map(|e| e.name.clone()).collect();
    assert_eq!(names, vec!["b", ".git", "a.txt"]);
    assert!(s.list("root/b").unwrap().is_empty());
    assert!(s.list("root/a.txt").is_none());
    assert!(s.list("").is_none());
}

#[test]
fn counts_add_up_to_the_rows() {
    let mut s = Snapshot::new();
    s.add(
        "r".to_string(),
        vec![dir("r", "a"), dir("r", "b"), file("r", "c", 3), dir("r", "target")],
    );
    s.add("r/a".to_string(), vec![file("r/a", "1", 10), file("r/a", "2", 20), dir("r/a", "d")]);
    s.add("r/a/d".to_string(), vec![file("r/a/d", "x", 100)]);
    s.add("r/b".to_string(), vec![]);
    s.add("r/target".to_string(), vec![file("r/target", "big", 1_000_000)]);
    for depth in [None, Some(0), Some(1), Some(2), Some(3), Some(4)] {
        let mut c = config("r");
        c.collect_stats = true;
        c.max_depth = depth;
        let outcome = walk(&s, c).unwrap();
        let (dirs, files, bytes) = counts(&outcome.stats);
        assert_eq!(dirs + files, outcome.rows.len());
        assert_eq!(dirs, outcome.rows.iter().filter(|r| r.entry.is_dir).count());
        let sum: u64 = outcome
            .rows
            .iter()
            .filter(|r| !r.entry.is_dir)
            .filter_map(|r| r.entry.size)
            .sum();
        assert_eq!(bytes, sum);
        if let Some(k) = depth {
            assert!(outcome.rows.iter().all(|r| r.level < k));
        }
    }
    let mut c = config("r");
    c.collect_stats = true;
    assert_eq!(counts(&walk(&s, c).unwrap().stats), (3, 4, 133));
}

#[test]
fn listing_order_does_not_change_a_tree() {
    let mut forward = Snapshot::new();
    forward.add("r".to_string(), vec![dir("r", "a"), file("r", "b", 1), dir("r", "c")]);
    forward.add("r/a".to_string(), vec![file("r/a", "1", 1), file("r/a", "2", 1)]);
    forward.add("r/c".to_string(), vec![dir("r/c", "x"), file("r/c", "y", 1)]);
    forward.add("r/c/x".to_string(), vec![]);
    let mut backward = Snapshot::new();
    backward.add("r/c/x".to_string(), vec![]);
    backward.add("r/c".to_string(), vec![file("r/c", "y", 1), dir("r/c", "x")]);
    backward.add("r/a".to_string(), vec![file("r/a", "2", 1), file("r/a", "1", 1)]);
    backward.add("r".to_string(), vec![dir("r", "c"), file("r", "b", 1), dir("r", "a")]);
    let lines = plain_lines(&forward, config("r"));
    assert_eq!(lines, plain_lines(&backward, config("r")));
    assert_eq!(
        lines,
        vec![
            "├── a",
            "│   ├── 1",
            "│   └── 2",
            "├── b",
            "└── c",
            "    ├── x",
            "    └── y",
        ]
    );
}
