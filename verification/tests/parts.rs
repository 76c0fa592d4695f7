use perg::config::{is_dash, Config, Mode};
use perg::matcher::contains;
use perg::render::{decimal_string, render, EmissionRecord};
use perg::search::{make_record, render_lines, search_in_file, search_line};
use perg::window::ContextWindow;
use perg::walker::{is_excluded, is_hidden, select_candidates, PathKind, WalkEntry};
use perg::window::RawLine;

#[test]
fn ignore_case_matches_upper_against_lower() {
    assert!(perg::matcher::matches("abc", "ABC", true));
    assert!(perg::matcher::matches("ABC", "abc", true));
    assert!(perg::matcher::matches("xxABCxx", "aBc", true));
    assert!(!perg::matcher::matches("abc", "ABC", false));
    assert!(!perg::matcher::matches("ABC", "abc", false));
}

#[test]
fn ignore_case_folds_beyond_ascii() {
    assert!(perg::matcher::matches("STRASSE ÄÖÜ", "äöü", true));
    assert!(!perg::matcher::matches("STRASSE ÄÖÜ", "äöü", false));
}

#[test]
fn contains_is_literal() {
    assert!(contains("a.c", "."));
    assert!(!contains("abc", "a.c"));
    assert!(contains("abc", ""));
    assert!(contains("", ""));
    assert!(!contains("", "a"));
    assert!(contains("abc", "abc"));
    assert!(!contains("abc", "abcd"));
    assert!(contains("aab", "ab"));
    assert!(contains("xyz", "z"));
    assert!(!contains("xyz", "zy"));
}

#[test]
fn decimal_string_writes_digits() {
    assert_eq!(decimal_string(0), "0");
    assert_eq!(decimal_string(7), "7");
    assert_eq!(decimal_string(10), "10");
    assert_eq!(decimal_string(1234567890), "1234567890");
    assert_eq!(decimal_string(usize::MAX), usize::MAX.to_string());
}

#[test]
fn render_puts_the_prefixes_in_order() {
    let record = EmissionRecord {
        source_label: Some(String::from("dir/file")),
        line_number: Some(12),
        text: String::from("the text"),
    };
    assert_eq!(render(&record, true, true), "dir/file:12: the text");
    assert_eq!(render(&record, true, false), "dir/file:the text");
    assert_eq!(render(&record, false, true), "12: the text");
    assert_eq!(render(&record, false, false), "the text");
}

#[test]
fn render_shows_only_what_the_record_has() {
    let record = EmissionRecord { source_label: None, line_number: None, text: String::from("t") };
    assert_eq!(render(&record, true, true), "t");
}

#[test]
fn make_record_counts_lines_from_one() {
    let record = make_record(RawLine { index: 0, text: String::from("t") }, "f", true, true);
    assert_eq!(record.source_label, Some(String::from("f")));
    assert_eq!(record.line_number, Some(1));
    assert_eq!(record.text, "t");
    let record = make_record(RawLine { index: 41, text: String::from("t") }, "f", false, false);
    assert_eq!(record.source_label, None);
    assert_eq!(record.line_number, None);
}

#[test]
fn search_in_file_skips_unreadable_lines_and_keeps_the_numbers() {
    let c = Config::new("a", vec!["f"], true, false, false, false, None);
    let content = vec![None, Some(String::from("a")), None, Some(String::from("ba"))];
    assert_eq!(search_in_file("f", &content, &c, true), vec!["f:2: a", "f:4: ba"]);
    assert_eq!(search_in_file("f", &content, &c, false), vec!["2: a", "4: ba"]);
}

#[test]
fn mode_prefers_the_walk() {
    let c = Config::new("p", vec![], false, false, false, false, None);
    assert_eq!(c.mode(), Mode::StandardInput);
    assert!(!c.shows_filename());
    let c = Config::new("p", vec!["-"], false, false, false, false, None);
    assert_eq!(c.mode(), Mode::StandardInput);
    let c = Config::new("p", vec!["-"], false, true, false, false, None);
    assert_eq!(c.mode(), Mode::Recursive);
    assert_eq!(c.root(), "-");
    assert!(c.shows_filename());
    let c = Config::new("p", vec![], false, false, true, false, None);
    assert_eq!(c.mode(), Mode::Recursive);
    assert_eq!(c.root(), ".");
    let c = Config::new("p", vec!["a"], false, false, false, false, None);
    assert_eq!(c.mode(), Mode::Files);
    assert!(!c.shows_filename());
    let c = Config::new("p", vec!["-", "-"], false, false, false, false, None);
    assert_eq!(c.mode(), Mode::Files);
    assert!(c.shows_filename());
}

#[test]
fn new_keeps_what_it_is_given() {
    let c = Config::new("p", vec!["a", "b"], true, false, true, true, Some("x"));
    assert_eq!(c.pattern, "p");
    assert_eq!(c.filenames, vec!["a", "b"]);
    assert!(c.line_number);
    assert!(!c.recursive);
    assert!(c.recursive_following_symlink);
    assert!(c.ignore_case);
    assert_eq!(c.exclude_dir, Some("x"));
    assert_eq!(c.before_context, None);
    assert_eq!(c.after_context, None);
    let c = c.with_context(Some(2), Some(0));
    assert_eq!(c.before_context, Some(2));
    assert_eq!(c.after_context, Some(0));
    assert_eq!(c.pattern, "p");
    assert_eq!(c.filenames, vec!["a", "b"]);
    assert_eq!(c.exclude_dir, Some("x"));
    assert!(c.line_number);
}

#[test]
fn dash_is_one_hyphen() {
    assert!(is_dash("-"));
    assert!(!is_dash(""));
    assert!(!is_dash("--"));
    assert!(!is_dash("a"));
}

#[test]
fn excluded_directories_match_whole_components() {
    assert!(is_excluded("./testdata/folder/lol", "folder"));
    assert!(is_excluded("./testdata/folder/lol", "testdata"));
    assert!(is_excluded("folder/lol", "folder"));
    assert!(is_excluded("/a/lib/b/c", "lib"));
    assert!(!is_excluded("./testdata/folder/lol", "lol"));
    assert!(!is_excluded("./testdata/myfolder/lol", "folder"));
    assert!(!is_excluded("./testdata/folders/lol", "folder"));
    assert!(!is_excluded("./testdata/folder", "folder"));
    assert!(!is_excluded("a/b/c", "a/b"));
    assert!(!is_excluded("", "folder"));
}

#[test]
fn hidden_names_start_with_a_dot() {
    assert!(is_hidden(".git", 1));
    assert!(is_hidden("./a/.hidden", 1));
    assert!(is_hidden("./a/.hidden", 2));
    assert!(is_hidden("./.a/b", 2));
    assert!(is_hidden("r/.a/b/c/d", 4));
    assert!(!is_hidden("r/.a/b/c/d", 3));
    assert!(!is_hidden("./.a/b", 1));
    assert!(!is_hidden("./a/b", 2));
    assert!(is_hidden("./a/b", 3));
    assert!(!is_hidden(".git", 0));
    assert!(!is_hidden("./a", 1));
    assert!(!is_hidden("a.b", 1));
    assert!(!is_hidden("", 1));
    assert!(!is_hidden("a/", 1));
    assert!(!is_hidden("a//b", 2));
    assert!(is_hidden(".a//b", 3));
}

#[test]
fn candidates_are_regular_files_that_pass_every_rule() {
    let entry = |path: &str, depth: usize, kind: PathKind, is_symlink: bool| WalkEntry {
        path: String::from(path),
        depth,
        kind,
        is_symlink,
    };
    assert!(entry("r/a", 1, PathKind::RegularFile, false).is_candidate(false, None));
    assert!(!entry("r/a", 1, PathKind::Directory, false).is_candidate(false, None));
    assert!(!entry("r/a", 1, PathKind::NotFound, false).is_candidate(false, None));
    assert!(!entry("r/a", 1, PathKind::RegularFile, true).is_candidate(false, None));
    assert!(entry("r/a", 1, PathKind::RegularFile, true).is_candidate(true, None));
    assert!(!entry("r/.a", 1, PathKind::RegularFile, false).is_candidate(false, None));
    assert!(entry(".a", 0, PathKind::RegularFile, false).is_candidate(false, None));
    assert!(!entry("r/.d/a", 2, PathKind::RegularFile, false).is_candidate(false, None));
    assert!(entry(".r/d/a", 2, PathKind::RegularFile, false).is_candidate(false, None));
    assert!(!entry("r/d/a", 2, PathKind::RegularFile, false).is_candidate(false, Some("d")));
    assert!(entry("r/d/a", 2, PathKind::RegularFile, false).is_candidate(false, Some("a")));
}

#[test]
fn select_candidates_keeps_the_order_of_the_walk() {
    let entry = |path: &str, depth: usize, kind: PathKind| WalkEntry {
        path: String::from(path),
        depth,
        kind,
        is_symlink: false,
    };
    let entries = vec![
        entry("root", 0, PathKind::Directory),
        entry("root/b", 1, PathKind::RegularFile),
        entry("root/skip", 1, PathKind::Directory),
        entry("root/skip/c", 2, PathKind::RegularFile),
        entry("root/a", 1, PathKind::RegularFile),
        entry("root/keep/skip/x/d", 4, PathKind::RegularFile),
        entry("root/keep/e", 2, PathKind::RegularFile),
    ];
    let chosen = select_candidates(&entries, false, Some("skip"));
    let paths: Vec<&str> = chosen.iter().map(|c| c.path.as_str()).collect();
    assert_eq!(paths, vec!["root/b", "root/a", "root/keep/e"]);
    assert!(chosen.iter().all(|c| c.show_filename));
    let chosen = select_candidates(&entries, false, None);
    assert_eq!(chosen.len(), 5);
}

#[test]
fn render_lines_renders_each_line() {
    let lines = vec![
        RawLine { index: 0, text: String::from("a") },
        RawLine { index: 9, text: String::from("b") },
    ];
    assert_eq!(render_lines(&lines, "f", true, true), vec!["f:1: a", "f:10: b"]);
    assert_eq!(render_lines(&lines, "f", false, false), vec!["a", "b"]);
    assert_eq!(render_lines(&Vec::new(), "f", true, true), Vec::<String>::new());
}

#[test]
fn search_line_prints_what_is_due() {
    let c = Config::new("Hit", vec![], true, false, false, true, None);
    let mut window = ContextWindow::new(Some(1), Some(1));
    let mut feed = |index: usize, text: &str| {
        search_line(&mut window, RawLine { index, text: String::from(text) }, &c, "-", false)
    };
    assert_eq!(feed(0, "x"), Vec::<String>::new());
    assert_eq!(feed(1, "y"), Vec::<String>::new());
    assert_eq!(feed(2, "a HIT"), vec!["2: y", "3: a HIT"]);
    assert_eq!(feed(3, "z"), vec!["4: z"]);
    assert_eq!(feed(4, "hit"), vec!["5: hit"]);
    assert_eq!(feed(6, "late"), Vec::<String>::new());
}
