use dirtree::config::Config;
use dirtree::entry::Entry;
use dirtree::order::sort_by_path;

fn entry(path: &str, is_dir: bool) -> Entry {
    let name = path.rsplit('/').next().unwrap().to_string();
    Entry::new(name, true, path.to_string(), is_dir, false, None)
}

fn paths(entries: &[Entry]) -> Vec<String> {
    entries.iter().map(|e| e.path.clone()).collect()
}

#[test]
fn sorts_ascending_by_path() {
    let listing = vec![entry("r/c", false), entry("r/a", true), entry("r/b", false)];
    assert_eq!(paths(&sort_by_path(&listing)), vec!["r/a", "r/b", "r/c"]);
}

#[test]
fn sorting_keeps_every_entry() {
    let listing = vec![
        entry("r/5", false),
        entry("r/3", true),
        entry("r/4", false),
        entry("r/1", true),
        entry("r/2", false),
    ];
    let sorted = sort_by_path(&listing);
    assert_eq!(paths(&sorted), vec!["r/1", "r/2", "r/3", "r/4", "r/5"]);
    let kinds: Vec<bool> = sorted.iter().map(|e| e.is_dir).collect();
    assert_eq!(kinds, vec![true, false, true, false, false]);
}

#[test]
fn sorting_nothing_gives_nothing() {
    assert!(sort_by_path(&vec![]).is_empty());
    assert_eq!(paths(&sort_by_path(&vec![entry("x", false)])), vec!["x"]);
}

#[test]
fn directories_are_not_grouped_first() {
    let listing = vec![entry("r/zdir", true), entry("r/afile", false), entry("r/mdir", true)];
    assert_eq!(paths(&sort_by_path(&listing)), vec!["r/afile", "r/mdir", "r/zdir"]);
}

#[test]
fn equal_paths_keep_their_listed_order() {
    let listing = vec![entry("r/b", true), entry("r/a", false), entry("r/b", false)];
    let sorted = sort_by_path(&listing);
    assert_eq!(paths(&sorted), vec!["r/a", "r/b", "r/b"]);
    assert!(sorted[1].is_dir);
    assert!(!sorted[2].is_dir);
}

#[test]
fn sorted_listing_stays_as_it_is() {
    let listing = vec![entry("a", false), entry("b", false), entry("c", false)];
    assert_eq!(paths(&sort_by_path(&listing)), vec!["a", "b", "c"]);
    let reversed = vec![entry("c", false), entry("b", false), entry("a", false)];
    assert_eq!(paths(&sort_by_path(&reversed)), vec!["a", "b", "c"]);
}

#[test]
fn upper_case_sorts_before_lower_case() {
    let listing = vec![entry("r/b", false), entry("r/B", false), entry("r/a", false)];
    assert_eq!(paths(&sort_by_path(&listing)), vec!["r/B", "r/a", "r/b"]);
}

#[test]
fn visible_entries_are_filtered_then_sorted() {
    let config = Config {
        root: "r".to_string(),
        max_depth: Some(3),
        show_all: false,
        ignores: vec!["skip".to_string()],
        includes: vec!["target".to_string()],
        collect_stats: false,
    };
    let listing = vec![
        entry("r/z", false),
        entry("r/skip", true),
        entry("r/target", true),
        entry("r/node_modules", true),
        entry("r/a", false),
    ];
    assert_eq!(paths(&config.visible_entries(&listing)), vec!["r/a", "r/target", "r/z"]);
    assert!(config.shows(&listing[0]));
    assert!(!config.shows(&listing[1]));
    assert!(config.shows(&listing[2]));
    assert!(!config.shows(&listing[3]));
    assert_eq!(config.depth(), 3);
}

#[test]
fn no_depth_limit_is_the_largest_level() {
    let config = Config {
        root: ".".to_string(),
        max_depth: None,
        show_all: true,
        ignores: vec![],
        includes: vec![],
        collect_stats: true,
    };
    assert_eq!(config.depth(), usize::MAX);
}

#[test]
fn large_listing_sorts_like_the_standard_sort() {
    let mut seed: u64 = 0x2545_f491_4f6c_dd1d;
    let mut listing = Vec::new();
    for i in 0..2000u32 {
        seed ^= seed << 13;
        seed ^= seed >> 7;
        seed ^= seed << 17;
        let name = format!("{:x}-{}", seed % 5000, i % 7);
        listing.push(entry(&format!("r/{name}"), seed % 3 == 0));
    }
    let sorted = sort_by_path(&listing);
    let mut expected: Vec<(String, bool)> =
        listing.iter().map(|e| (e.path.clone(), e.is_dir)).collect();
    expected.sort_by(|a, b| a.0.cmp(&b.0));
    let got: Vec<(String, bool)> = sorted.iter().map(|e| (e.path.clone(), e.is_dir)).collect();
    assert_eq!(got, expected);
}

#[test]
fn kept_entries_stay_in_listed_order() {
    let config = Config {
        root: "r".to_string(),
        max_depth: None,
        show_all: false,
        ignores: vec![],
        includes: vec![],
        collect_stats: false,
    };
    let listing = vec![entry("r/z", false), entry("r/.git", true), entry("r/a", false)];
    assert_eq!(paths(&config.kept_entries(&listing)), vec!["r/z", "r/a"]);
}

#[test]
fn path_that_is_no_text_sorts_by_its_own_bytes() {
    // the raw byte 0xc0 sorts before "é" (0xc3 0xa9); its replacement in the
    // text, U+FFFD (0xef 0xbf 0xbd), would sort behind it
    let odd = Entry::new("\u{fffd}".to_string(), false, "r/\u{fffd}".to_string(), false, false, None)
        .with_raw_path(vec![b'r', b'/', 0xc0]);
    assert_eq!(odd.key(), &[b'r', b'/', 0xc0]);
    assert_eq!(entry("r/é", false).key(), "r/é".as_bytes());
    let listing = vec![entry("r/é", false), odd, entry("r/a", false)];
    let sorted = sort_by_path(&listing);
    assert_eq!(paths(&sorted), vec!["r/a", "r/\u{fffd}", "r/é"]);
    assert_eq!(sorted[1].raw_path, Some(vec![b'r', b'/', 0xc0]));
    let copy = sorted[1].duplicate();
    assert_eq!(copy.raw_path, Some(vec![b'r', b'/', 0xc0]));
    assert_eq!(copy.path, "r/\u{fffd}");
}
