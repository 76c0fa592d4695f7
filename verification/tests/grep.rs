use perg::config::{Config, Mode};
use perg::search::{grep, Source, NOT_FOUND};
use perg::walker::{PathKind, WalkEntry};

fn entry(path: &str, depth: usize, kind: PathKind) -> WalkEntry {
    WalkEntry { path: String::from(path), depth, kind, is_symlink: false }
}

fn file(path: &str, depth: usize, lines: &[&str]) -> Source {
    Source {
        entry: entry(path, depth, PathKind::RegularFile),
        lines: lines.iter().map(|l| Some(String::from(*l))).collect(),
    }
}

fn directory(path: &str, depth: usize) -> Source {
    Source { entry: entry(path, depth, PathKind::Directory), lines: vec![] }
}

fn missing(path: &str) -> Source {
    Source { entry: entry(path, 0, PathKind::NotFound), lines: vec![] }
}

fn cargo_toml() -> Source {
    file(
        "./Cargo.toml",
        0,
        &[
            "[package]",
            "name = \"perg\"",
            "version = \"0.6.0\"",
            "authors = [\"Federico Guerinoni <guerinoni.federico@gmail.com>\"]",
            "edition = \"2021\"",
        ],
    )
}

fn lol_lines() -> Vec<&'static str> {
    let mut lines = vec!["Saying fruitful gathered."; 27];
    lines[3] = "You.";
    lines[7] = "Tree brought multiply land darkness had dry you're of.";
    lines[18] = "He divide for appear deep abundantly. Had above unto. Moving stars fish. Whose you'll can't beginning sixth.";
    lines[24] = "Third dominion you're had called green.";
    lines[25] = "Evening green fill you'll gathering above hath.";
    lines
}

fn testdata() -> Vec<Source> {
    vec![
        directory("./testdata", 0),
        directory("./testdata/folder", 1),
        file("./testdata/folder/lol", 2, &lol_lines()),
        file("./testdata/lol", 1, &lol_lines()),
    ]
}

#[test]
fn return_path_invalid() {
    let c = Config::new("hello", vec!["/home/invalid"], false, false, false, false, None);
    let r = grep(&c, &vec![missing("/home/invalid")]);
    assert_eq!(r, Err("No such file or directory"));
}

#[test]
fn grep_single_file() {
    let c = Config::new("federico", vec!["./Cargo.toml"], false, false, false, false, None);
    let r = grep(&c, &vec![cargo_toml()]);
    assert_eq!(
        r,
        Ok(vec![String::from(
            "authors = [\"Federico Guerinoni <guerinoni.federico@gmail.com>\"]"
        )])
    );

    let c = Config::new(
        "federico guerinoni",
        vec!["./Cargo.toml"],
        false,
        false,
        false,
        false,
        None,
    );
    let r = grep(&c, &vec![cargo_toml()]);
    assert_eq!(r, Ok(vec![]));
}

#[test]
fn grep_single_file_ignore_case() {
    let c = Config::new(
        "federico guerinoni",
        vec!["./Cargo.toml"],
        false,
        false,
        false,
        true,
        None,
    );
    let r = grep(&c, &vec![cargo_toml()]);
    assert_eq!(
        r,
        Ok(vec![String::from(
            "authors = [\"Federico Guerinoni <guerinoni.federico@gmail.com>\"]"
        )])
    );
}

#[test]
fn grep_two_file() {
    let c = Config::new(
        "federico",
        vec!["./Cargo.toml", "./Cargo.toml"],
        false,
        false,
        false,
        false,
        None,
    );
    let r = grep(&c, &vec![cargo_toml(), cargo_toml()]);
    let line = String::from("authors = [\"Federico Guerinoni <guerinoni.federico@gmail.com>\"]");
    assert_eq!(
        r,
        Ok(vec![
            String::from("./Cargo.toml:") + &line,
            String::from("./Cargo.toml:") + &line
        ])
    );
}

#[test]
fn grep_single_file_with_line_number() {
    let c = Config::new("federico", vec!["./Cargo.toml"], true, false, false, false, None);
    let r = grep(&c, &vec![cargo_toml()]);
    assert_eq!(
        r,
        Ok(vec![String::from(
            "4: authors = [\"Federico Guerinoni <guerinoni.federico@gmail.com>\"]"
        )])
    )
}

#[test]
fn grep_folder() {
    let c = Config::new("you", vec!["./testdata"], false, true, false, false, None);
    let mut r = grep(&c, &testdata()).unwrap();
    r.sort();
    assert_eq!(
        r,
        vec![
            "./testdata/folder/lol:Evening green fill you'll gathering above hath.",
            "./testdata/folder/lol:He divide for appear deep abundantly. Had above unto. Moving stars fish. Whose you'll can't beginning sixth.",
            "./testdata/folder/lol:Third dominion you're had called green.",
            "./testdata/folder/lol:Tree brought multiply land darkness had dry you're of.",
            "./testdata/lol:Evening green fill you'll gathering above hath.",
            "./testdata/lol:He divide for appear deep abundantly. Had above unto. Moving stars fish. Whose you'll can't beginning sixth.",
            "./testdata/lol:Third dominion you're had called green.",
            "./testdata/lol:Tree brought multiply land darkness had dry you're of."
        ]
    );
}

#[test]
fn grep_folder_ignore_case() {
    let c = Config::new("you", vec!["./testdata"], false, true, false, true, None);
    let mut r = grep(&c, &testdata()).unwrap();
    r.sort();
    assert_eq!(
        r,
        vec![
            "./testdata/folder/lol:Evening green fill you'll gathering above hath.",
            "./testdata/folder/lol:He divide for appear deep abundantly. Had above unto. Moving stars fish. Whose you'll can't beginning sixth.",
            "./testdata/folder/lol:Third dominion you're had called green.",
            "./testdata/folder/lol:Tree brought multiply land darkness had dry you're of.",
            "./testdata/folder/lol:You.",
            "./testdata/lol:Evening green fill you'll gathering above hath.",
            "./testdata/lol:He divide for appear deep abundantly. Had above unto. Moving stars fish. Whose you'll can't beginning sixth.",
            "./testdata/lol:Third dominion you're had called green.",
            "./testdata/lol:Tree brought multiply land darkness had dry you're of.",
            "./testdata/lol:You."
        ]
    );
}

#[test]
fn grep_folder_without_specify_folder() {
    let c = Config::new("you", vec![], false, true, false, false, None);
    assert_eq!(c.mode(), Mode::Recursive);
    assert_eq!(c.root(), ".");
    let r = grep(&c, &vec![directory(".", 0), file("./lol", 1, &lol_lines())]);
    assert!(r.is_ok());
}

#[test]
fn grep_folder_with_line_numbers() {
    let c = Config::new("you", vec!["./testdata"], true, true, false, false, None);
    let mut r = grep(&c, &testdata()).unwrap();
    r.sort();
    assert_eq!(
        r,
        vec![
            "./testdata/folder/lol:19: He divide for appear deep abundantly. Had above unto. Moving stars fish. Whose you'll can't beginning sixth.",
            "./testdata/folder/lol:25: Third dominion you're had called green.",
            "./testdata/folder/lol:26: Evening green fill you'll gathering above hath.",
            "./testdata/folder/lol:8: Tree brought multiply land darkness had dry you're of.",
            "./testdata/lol:19: He divide for appear deep abundantly. Had above unto. Moving stars fish. Whose you'll can't beginning sixth.",
            "./testdata/lol:25: Third dominion you're had called green.",
            "./testdata/lol:26: Evening green fill you'll gathering above hath.",
            "./testdata/lol:8: Tree brought multiply land darkness had dry you're of."
        ]
    );
}

#[test]
fn grep_folder_exclude_dir() {
    let c = Config::new("you", vec!["./testdata"], false, true, false, false, Some("folder"));
    let mut r = grep(&c, &testdata()).unwrap();
    r.sort();
    assert_eq!(
        r,
        vec![
            "./testdata/lol:Evening green fill you'll gathering above hath.",
            "./testdata/lol:He divide for appear deep abundantly. Had above unto. Moving stars fish. Whose you'll can't beginning sixth.",
            "./testdata/lol:Third dominion you're had called green.",
            "./testdata/lol:Tree brought multiply land darkness had dry you're of."
        ]
    );
}

#[test]
fn missing_path_hides_the_output_of_the_other_sources() {
    let c = Config::new("federico", vec!["./Cargo.toml", "/no/such/path", "./Cargo.toml"], false, false, false, false, None);
    let r = grep(&c, &vec![cargo_toml(), missing("/no/such/path"), cargo_toml()]);
    assert_eq!(r, Err(NOT_FOUND));
    assert_eq!(NOT_FOUND, "No such file or directory");
}

#[test]
fn missing_entry_of_a_walk_is_no_failure() {
    let c = Config::new("federico", vec!["."], false, true, false, false, None);
    let r = grep(&c, &vec![missing("./gone"), file("./Cargo.toml", 1, &["federico"])]);
    assert_eq!(r, Ok(vec![String::from("./Cargo.toml:federico")]));
}

#[test]
fn listed_directory_gives_no_lines() {
    let c = Config::new("a", vec!["./dir", "./f"], false, false, false, false, None);
    let r = grep(&c, &vec![directory("./dir", 0), file("./f", 0, &["a", "b"])]);
    assert_eq!(r, Ok(vec![String::from("./f:a")]));
}

#[test]
fn standard_input_is_searched_without_a_label() {
    let c = Config::new("a", vec!["-"], true, false, false, false, None);
    assert_eq!(c.mode(), Mode::StandardInput);
    let r = grep(&c, &vec![file("-", 0, &["b", "xax"])]);
    assert_eq!(r, Ok(vec![String::from("2: xax")]));
}

#[test]
fn exclude_dir_skip_drops_every_candidate_below_a_skip_directory() {
    let c = Config::new("hit", vec!["root"], false, true, false, false, Some("skip"));
    let sources = vec![
        directory("root", 0),
        file("root/keep/a.txt", 2, &["hit"]),
        file("root/skip/a.txt", 2, &["hit"]),
        file("root/keep/skip/deep/a.txt", 4, &["hit"]),
        file("root/skipper/a.txt", 2, &["hit"]),
        file("root/skip", 1, &["hit"]),
    ];
    let mut r = grep(&c, &sources).unwrap();
    r.sort();
    assert_eq!(r, vec!["root/keep/a.txt:hit", "root/skip:hit", "root/skipper/a.txt:hit"]);
}

#[test]
fn symlinks_are_searched_only_when_followed() {
    let mut link = file("root/link", 1, &["hit"]);
    link.entry.is_symlink = true;
    let plain = Config::new("hit", vec!["root"], false, true, false, false, None);
    assert_eq!(grep(&plain, &vec![link]), Ok(vec![]));
    let mut link = file("root/link", 1, &["hit"]);
    link.entry.is_symlink = true;
    let following = Config::new("hit", vec!["root"], false, false, true, false, None);
    assert_eq!(grep(&following, &vec![link]), Ok(vec![String::from("root/link:hit")]));
}

#[test]
fn hidden_entries_of_a_walk_are_skipped() {
    let c = Config::new("hit", vec!["."], false, true, false, false, None);
    let sources = vec![
        file("./.secret", 1, &["hit"]),
        file("./.git/config", 2, &["hit"]),
        file("./seen", 1, &["hit"]),
    ];
    assert_eq!(grep(&c, &sources), Ok(vec![String::from("./seen:hit")]));
}

#[test]
fn context_lines_come_with_the_matches_of_each_file() {
    let c = Config::new("match", vec!["f"], true, false, false, false, None)
        .with_context(Some(1), Some(1));
    let r = grep(&c, &vec![file("f", 0, &["a", "match", "b", "c", "d", "match"])]);
    assert_eq!(
        r,
        Ok(vec![
            String::from("1: a"),
            String::from("2: match"),
            String::from("3: b"),
            String::from("5: d"),
            String::from("6: match"),
        ])
    );
}
