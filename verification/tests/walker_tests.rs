use fsearch::walker::EntryKind;
use fsearch::walker::ListingEntry;
use fsearch::walker::Message;
use fsearch::walker::SearchConfig;
use fsearch::walker::Walker;
use ignore::gitignore::Gitignore;
use ignore::gitignore::GitignoreBuilder;

fn cfg(root: &str) -> SearchConfig {
    SearchConfig {
        root_path: root.to_string(),
        pattern: "*".to_string(),
        max_depth: None,
        extensions: None,
        show_hidden: false,
        include_gitignored: false,
    }
}

fn file(name: &str) -> ListingEntry {
    ListingEntry { name: name.to_string(), kind: Ok(EntryKind::File), hidden_attr: false }
}

fn dir(name: &str) -> ListingEntry {
    ListingEntry { name: name.to_string(), kind: Ok(EntryKind::Directory), hidden_attr: false }
}

fn broken(name: &str, why: &str) -> ListingEntry {
    ListingEntry { name: name.to_string(), kind: Err(why.to_string()), hidden_attr: false }
}

fn attr_hidden_file(name: &str) -> ListingEntry {
    ListingEntry { name: name.to_string(), kind: Ok(EntryKind::File), hidden_attr: true }
}

fn rules(lines: &[&str]) -> Option<Gitignore> {
    let mut b = GitignoreBuilder::new(".");
    for l in lines {
        b.add_line(None, l).unwrap();
    }
    Some(b.build().unwrap())
}

/// Drives a walk over a simulated tree: each element pairs a directory path
/// with its listing outcome; a path not in the tree fails to list, like a
/// directory that cannot be read.
fn run_walk(
    config: SearchConfig,
    mut tree: Vec<(String, Result<Vec<ListingEntry>, String>)>,
    gitignore: &Option<Gitignore>,
) -> Vec<Message> {
    let mut walker = Walker::new(config);
    let mut out = Vec::new();
    while let Some(task) = walker.next_dir() {
        let listing = match tree.iter().position(|(p, _)| p == &task.path) {
            Some(pos) => tree.remove(pos).1,
            None => Err(format!("cannot read directory {}", task.path)),
        };
        let msgs = walker.process_listing(&task, &listing, gitignore);
        out.extend(msgs);
    }
    out
}

fn matches_of(msgs: &[Message]) -> Vec<String> {
    let mut v: Vec<String> = msgs
        .iter()
        .filter_map(|m| match m {
            Message::Match(p) => Some(p.clone()),
            Message::Failure(_) => None,
        })
        .collect();
    v.sort();
    v
}

fn failure_count(msgs: &[Message]) -> usize {
    msgs.iter()
        .filter(|m| matches!(m, Message::Failure(_)))
        .count()
}

#[test]
fn test_search_basic() {
    let tree = vec![
        ("root".to_string(), Ok(vec![dir("sub"), file("data.bin")])),
        ("root/sub".to_string(), Ok(vec![file("file1.txt"), file("file2.rs")])),
    ];
    let msgs = run_walk(cfg("root"), tree, &None);
    assert_eq!(
        matches_of(&msgs),
        vec![
            "root/data.bin".to_string(),
            "root/sub/file1.txt".to_string(),
            "root/sub/file2.rs".to_string(),
        ]
    );
    assert_eq!(failure_count(&msgs), 0);
}

#[test]
fn test_empty_dir() {
    let tree = vec![("root".to_string(), Ok(vec![]))];
    let msgs = run_walk(cfg("root"), tree, &None);
    assert!(msgs.is_empty(), "Expected no files in empty directory");
}

#[test]
fn test_non_existent_directory() {
    let msgs = run_walk(cfg("X:/some-non-existent-1234"), vec![], &None);
    assert_eq!(matches_of(&msgs).len(), 0);
    assert!(
        failure_count(&msgs) >= 1,
        "Should have at least one error from non-existent dir"
    );
}

#[test]
fn test_hidden_files() {
    let tree = || vec![("root".to_string(), Ok(vec![file(".hidden.txt"), file("seen.txt")]))];
    let msgs = run_walk(cfg("root"), tree(), &None);
    assert!(
        !matches_of(&msgs).contains(&"root/.hidden.txt".to_string()),
        "Should NOT see hidden_file when show_hidden is false"
    );
    let mut shown = cfg("root");
    shown.show_hidden = true;
    let msgs2 = run_walk(shown, tree(), &None);
    assert!(
        matches_of(&msgs2).contains(&"root/.hidden.txt".to_string()),
        "Expected to see hidden_file when show_hidden is true"
    );
}

#[test]
fn test_hidden_directory_contents() {
    let tree = || vec![
        ("root".to_string(), Ok(vec![dir(".secret")])),
        ("root/.secret".to_string(), Ok(vec![file("inner.txt")])),
    ];
    let msgs = run_walk(cfg("root"), tree(), &None);
    assert_eq!(matches_of(&msgs).len(), 0);
    let mut shown = cfg("root");
    shown.show_hidden = true;
    let msgs2 = run_walk(shown, tree(), &None);
    assert_eq!(matches_of(&msgs2), vec!["root/.secret/inner.txt".to_string()]);
}

#[test]
fn test_search_extensions() {
    let tree = vec![
        ("root".to_string(), Ok(vec![file("hello.txt"), file("readme.md"), file("makefile")])),
    ];
    let mut config = cfg("root");
    config.extensions = Some(vec!["txt".to_string()]);
    config.show_hidden = true;
    let msgs = run_walk(config, tree, &None);
    let found = matches_of(&msgs);
    assert!(found.contains(&"root/hello.txt".to_string()), "Expected to see .txt file");
    assert!(!found.contains(&"root/readme.md".to_string()), "Should NOT see .md file");
    assert!(!found.contains(&"root/makefile".to_string()));
}

#[test]
fn test_extensions_case_insensitive() {
    let tree = vec![("root".to_string(), Ok(vec![file("REPORT.TXT"), file("notes.Txt")]))];
    let mut config = cfg("root");
    config.extensions = Some(vec!["txt".to_string()]);
    let msgs = run_walk(config, tree, &None);
    assert_eq!(
        matches_of(&msgs),
        vec!["root/REPORT.TXT".to_string(), "root/notes.Txt".to_string()]
    );
}

fn depth_tree() -> Vec<(String, Result<Vec<ListingEntry>, String>)> {
    vec![
        ("root".to_string(), Ok(vec![dir("level1")])),
        ("root/level1".to_string(), Ok(vec![dir("level2")])),
        ("root/level1/level2".to_string(), Ok(vec![file("deep_file.txt")])),
    ]
}

#[test]
fn test_max_depth() {
    let mut config = cfg("root");
    config.max_depth = Some(1);
    config.show_hidden = true;
    let msgs = run_walk(config, depth_tree(), &None);
    assert!(
        !matches_of(&msgs).contains(&"root/level1/level2/deep_file.txt".to_string()),
        "Should not see file at depth 2"
    );
    let mut config2 = cfg("root");
    config2.max_depth = Some(2);
    config2.show_hidden = true;
    let msgs2 = run_walk(config2, depth_tree(), &None);
    assert!(
        matches_of(&msgs2).contains(&"root/level1/level2/deep_file.txt".to_string()),
        "Should see file at depth 2"
    );
}

#[test]
fn test_max_depth_zero_lists_root_only() {
    let tree = vec![
        ("root".to_string(), Ok(vec![file("top.txt"), dir("sub")])),
        ("root/sub".to_string(), Ok(vec![file("below.txt")])),
    ];
    let mut config = cfg("root");
    config.max_depth = Some(0);
    let msgs = run_walk(config, tree, &None);
    assert_eq!(matches_of(&msgs), vec!["root/top.txt".to_string()]);
}

#[test]
fn test_gitignore_default() {
    let gi = rules(&["*.log"]);
    let tree = vec![
        ("root".to_string(), Ok(vec![file("notes.txt"), file("debug.log")])),
    ];
    let mut config = cfg("root");
    config.show_hidden = true;
    let msgs = run_walk(config, tree, &gi);
    let found = matches_of(&msgs);
    assert!(found.contains(&"root/notes.txt".to_string()), "Expected to find notes.txt");
    assert!(
        !found.contains(&"root/debug.log".to_string()),
        "Should NOT find debug.log if it's .gitignored"
    );
}

#[test]
fn test_include_gitignored() {
    let gi = rules(&["*.log"]);
    let tree = vec![
        ("root".to_string(), Ok(vec![file("notes.txt"), file("debug.log")])),
    ];
    let mut config = cfg("root");
    config.show_hidden = true;
    config.include_gitignored = true;
    let msgs = run_walk(config, tree, &gi);
    let found = matches_of(&msgs);
    assert!(found.contains(&"root/notes.txt".to_string()));
    assert!(
        found.contains(&"root/debug.log".to_string()),
        "Expected to see log file, ignoring .gitignore"
    );
}

#[test]
fn test_gitignore_multi_line() {
    let gi = rules(&[
        "# This is a comment",
        "*.log",
        "secret_*",
        "",
        "# blank line above",
        "*.tmp",
    ]);
    let tree = vec![
        (
            "root".to_string(),
            Ok(vec![
                file(".gitignore"),
                file("debug.log"),
                file("secret_file.txt"),
                file("random.tmp"),
                file("notes.txt"),
            ]),
        ),
    ];
    let mut config = cfg("root");
    config.show_hidden = true;
    let msgs = run_walk(config, tree, &gi);
    let found = matches_of(&msgs);
    let expected = vec!["root/.gitignore".to_string(), "root/notes.txt".to_string()];
    assert_eq!(
        found.len(),
        expected.len(),
        "Expected exactly {} files, found {}",
        expected.len(),
        found.len()
    );
    for path in &expected {
        assert!(found.contains(path), "Expected to find: {}", path);
    }
    assert!(!found.contains(&"root/debug.log".to_string()), "Should ignore *.log");
    assert!(!found.contains(&"root/secret_file.txt".to_string()), "Should ignore secret_*");
    assert!(!found.contains(&"root/random.tmp".to_string()), "Should ignore *.tmp");
}

#[test]
fn test_gitignored_directory_not_descended() {
    let gi = rules(&["build"]);
    let tree = vec![
        ("root".to_string(), Ok(vec![dir("build"), file("keep.txt")])),
        ("root/build".to_string(), Ok(vec![file("out.txt")])),
    ];
    let msgs = run_walk(cfg("root"), tree, &gi);
    assert_eq!(matches_of(&msgs), vec!["root/keep.txt".to_string()]);
    assert_eq!(failure_count(&msgs), 0);
}

#[test]
fn test_no_gitignore_file() {
    let gi = fsearch::gitignore::build_gitignore(&"/some-non-existent-root-1234".to_string());
    assert!(gi.is_none());
    let tree = vec![("root".to_string(), Ok(vec![file("debug.log")]))];
    let mut config = cfg("root");
    config.show_hidden = true;
    let msgs = run_walk(config, tree, &gi);
    assert!(matches_of(&msgs).contains(&"root/debug.log".to_string()));
}

#[test]
fn test_pattern_substring() {
    let tree = vec![
        ("root".to_string(), Ok(vec![file("abc-file.txt"), file("xyz-file.txt")])),
    ];
    let mut config = cfg("root");
    config.pattern = "abc*".to_string();
    config.show_hidden = true;
    let msgs = run_walk(config, tree, &None);
    let found = matches_of(&msgs);
    assert!(found.contains(&"root/abc-file.txt".to_string()));
    assert!(!found.contains(&"root/xyz-file.txt".to_string()));
}

#[test]
fn test_permission_denied() {
    // One unreadable subdirectory beside two readable files: every readable
    // file is still reported, with exactly one failure for the directory.
    let tree = vec![
        ("root".to_string(), Ok(vec![dir("locked"), file("a.txt"), file("b.txt")])),
        ("root/locked".to_string(), Err("permission denied".to_string())),
    ];
    let mut config = cfg("root");
    config.show_hidden = true;
    let msgs = run_walk(config, tree, &None);
    assert_eq!(
        matches_of(&msgs),
        vec!["root/a.txt".to_string(), "root/b.txt".to_string()]
    );
    assert!(
        failure_count(&msgs) >= 1,
        "Expected at least one error from permission-denied directory"
    );
}

#[test]
fn test_metadata_failure_isolated() {
    let tree = vec![
        (
            "root".to_string(),
            Ok(vec![file("ok1.txt"), broken("ghost", "entry vanished"), file("ok2.txt")]),
        ),
    ];
    let msgs = run_walk(cfg("root"), tree, &None);
    // Messages come in discovery order, failures interleaved where they
    // occurred.
    assert_eq!(msgs.len(), 3);
    assert!(matches!(&msgs[0], Message::Match(p) if p == "root/ok1.txt"));
    assert!(matches!(&msgs[1], Message::Failure(d) if d == "entry vanished"));
    assert!(matches!(&msgs[2], Message::Match(p) if p == "root/ok2.txt"));
}

#[test]
fn test_breadth_first_order() {
    let tree = vec![
        ("root".to_string(), Ok(vec![dir("b"), dir("a"), file("r.txt")])),
        ("root/b".to_string(), Ok(vec![file("x.txt")])),
        ("root/a".to_string(), Ok(vec![file("y.txt")])),
    ];
    let msgs = run_walk(cfg("root"), tree, &None);
    let paths: Vec<String> = msgs
        .iter()
        .map(|m| match m {
            Message::Match(p) => p.clone(),
            Message::Failure(d) => d.clone(),
        })
        .collect();
    // The root's own files come first, then the subdirectories' files in the
    // order the directories were discovered.
    assert_eq!(
        paths,
        vec![
            "root/r.txt".to_string(),
            "root/b/x.txt".to_string(),
            "root/a/y.txt".to_string(),
        ]
    );
}

#[test]
fn test_root_with_trailing_separator() {
    let tree = vec![("root/".to_string(), Ok(vec![file("data.bin")]))];
    let msgs = run_walk(cfg("root/"), tree, &None);
    // No separator is doubled when the root already ends with one.
    assert_eq!(matches_of(&msgs), vec!["root/data.bin".to_string()]);
}

#[test]
fn test_hidden_attribute_bit() {
    // An entry whose platform hidden attribute is set counts as hidden even
    // though its name carries no leading marker.
    let tree = || vec![
        ("root".to_string(), Ok(vec![attr_hidden_file("report.txt"), file("plain.txt")])),
    ];
    let msgs = run_walk(cfg("root"), tree(), &None);
    assert_eq!(matches_of(&msgs), vec!["root/plain.txt".to_string()]);
    let mut shown = cfg("root");
    shown.show_hidden = true;
    let msgs2 = run_walk(shown, tree(), &None);
    assert_eq!(
        matches_of(&msgs2),
        vec!["root/plain.txt".to_string(), "root/report.txt".to_string()]
    );
}
