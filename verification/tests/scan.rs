use red::delete::DeleteRun;
use red::emptiness::order_by_path;
use red::entry::{probe_for, Entry, EntryKind, Probe};
use red::outline::{scan_empty_dirs, DirectoryNode, EMPTY, SHOWN};
use red::path::{place_bytes, place_name, Name, Place, ScanRoot, TreePath};
use red::settings::ScanSettings;

fn root() -> ScanRoot {
    ScanRoot {
        text: "/data".to_string(),
        base: "/data/".to_string(),
        sep: '/',
    }
}

fn name(text: &str) -> Name {
    Name {
        raw: text.as_bytes().to_vec(),
        text: text.to_string(),
    }
}

fn path(text: &str) -> TreePath {
    TreePath {
        names: text
            .split('/')
            .filter(|s| !s.is_empty())
            .map(name)
            .collect(),
    }
}

fn dir(p: &str) -> Entry {
    Entry {
        path: path(p),
        kind: EntryKind::Dir,
        age_secs: None,
        size: None,
    }
}

fn aged(p: &str, secs: u64) -> Entry {
    Entry {
        age_secs: Some(secs),
        ..dir(p)
    }
}

fn file(p: &str, size: u64) -> Entry {
    Entry {
        path: path(p),
        kind: EntryKind::File,
        age_secs: None,
        size: Some(size),
    }
}

fn other(p: &str) -> Entry {
    Entry {
        kind: EntryKind::Other,
        ..dir(p)
    }
}

fn settings() -> ScanSettings {
    ScanSettings {
        ignore_files: Vec::new(),
        ignore_dirs: Vec::new(),
        ignore_hidden: false,
        keep_system: false,
        min_age_hours: 0,
        max_depth: -1,
        consider_empty_files_empty: false,
    }
}

fn scan(settings: &ScanSettings, entries: Vec<Entry>) -> Vec<DirectoryNode> {
    scan_empty_dirs(&root(), settings, &entries).unwrap()
}

fn empties(nodes: &[DirectoryNode]) -> Vec<String> {
    nodes
        .iter()
        .filter(|n| n.status == EMPTY)
        .map(|n| root().path_text(&n.path))
        .collect()
}

fn shown(nodes: &[DirectoryNode]) -> Vec<(String, i32, i32)> {
    nodes
        .iter()
        .map(|n| (n.name.clone(), n.depth, n.status))
        .collect()
}

#[test]
fn bare_root_is_not_reported() {
    assert!(scan(&settings(), vec![dir("")]).is_empty());
    assert!(scan(&settings(), vec![]).is_empty());
    assert!(scan(&settings(), vec![file("", 3)]).is_empty());
}

#[test]
fn emptiness_cascades() {
    let nodes = scan(
        &settings(),
        vec![dir(""), dir("a"), dir("a/b"), dir("a/b/c"), dir("a/d")],
    );
    assert_eq!(
        shown(&nodes),
        vec![
            ("/data".to_string(), 0, SHOWN),
            ("a".to_string(), 1, EMPTY),
            ("b".to_string(), 2, EMPTY),
            ("c".to_string(), 3, EMPTY),
            ("d".to_string(), 2, EMPTY),
        ]
    );
    assert!(nodes.iter().all(|n| n.is_expanded));
}

#[test]
fn files_keep_everything_above_them() {
    let nodes = scan(
        &settings(),
        vec![
            dir(""),
            dir("a"),
            dir("a/b"),
            file("a/b/f.txt", 9),
            dir("a/c"),
            dir("z"),
        ],
    );
    assert_eq!(
        shown(&nodes),
        vec![
            ("/data".to_string(), 0, SHOWN),
            ("a".to_string(), 1, SHOWN),
            ("c".to_string(), 2, EMPTY),
            ("z".to_string(), 1, EMPTY),
        ]
    );
}

#[test]
fn order_of_the_walk_does_not_matter() {
    let one = vec![dir(""), dir("a"), dir("a/b"), file("a/b/f", 1), dir("c"), dir("c/d")];
    let mut two = one.clone();
    two.reverse();
    let mut three = one.clone();
    three.rotate_left(2);
    let want = shown(&scan(&settings(), one));
    assert_eq!(want.len(), 3);
    assert_eq!(shown(&scan(&settings(), two)), want);
    assert_eq!(shown(&scan(&settings(), three)), want);
}

#[test]
fn ignored_files_do_not_count() {
    let s = ScanSettings {
        ignore_files: vec!["Thumbs.db".to_string(), "*.tmp".to_string()],
        ..settings()
    };
    let entries = vec![dir(""), dir("a"), file("a/Thumbs.db", 5), file("a/x.tmp", 5)];
    assert_eq!(empties(&scan(&s, entries.clone())), vec!["/data/a"]);
    assert!(empties(&scan(&settings(), entries)).is_empty());
}

#[test]
fn files_of_no_bytes_count_unless_told_otherwise() {
    let s = ScanSettings {
        consider_empty_files_empty: true,
        ..settings()
    };
    let unknown = Entry {
        size: None,
        ..file("b/g", 0)
    };
    let entries = vec![dir(""), dir("a"), file("a/f", 0), dir("b"), unknown];
    assert_eq!(empties(&scan(&s, entries.clone())), vec!["/data/a"]);
    assert!(empties(&scan(&settings(), entries)).is_empty());
}

#[test]
fn links_do_not_count() {
    let nodes = scan(&settings(), vec![dir(""), dir("a"), other("a/link")]);
    assert_eq!(empties(&nodes), vec!["/data/a"]);
}

#[test]
fn hidden_directories_stay_with_those_above() {
    let entries = vec![dir(""), dir("a"), dir("a/.git"), dir("b")];
    for (hidden, system) in [(true, false), (false, true), (true, true)] {
        let s = ScanSettings {
            ignore_hidden: hidden,
            keep_system: system,
            ..settings()
        };
        assert_eq!(empties(&scan(&s, entries.clone())), vec!["/data/b"]);
    }
    assert_eq!(
        empties(&scan(&settings(), entries)),
        vec!["/data/a", "/data/a/.git", "/data/b"]
    );
}

#[test]
fn directories_off_limits_are_found_in_the_whole_path() {
    let s = ScanSettings {
        ignore_dirs: vec!["BackUp\\old".to_string()],
        ..settings()
    };
    let entries = vec![
        dir(""),
        dir("backup"),
        dir("backup/Older"),
        dir("backup/Older/x"),
        dir("backup/new"),
    ];
    assert_eq!(empties(&scan(&s, entries)), vec!["/data/backup/new"]);
    let all = ScanSettings {
        ignore_dirs: vec!["/DATA/".to_string()],
        ..settings()
    };
    assert!(scan(&all, vec![dir(""), dir("a")]).is_empty());
}

#[test]
fn young_directories_stay() {
    let s = ScanSettings {
        min_age_hours: 2,
        ..settings()
    };
    let entries = vec![
        dir(""),
        aged("a", 7199),
        aged("b", 7200),
        dir("c"),
        aged("d", 9999),
        aged("d/e", 0),
    ];
    assert_eq!(empties(&scan(&s, entries)), vec!["/data/b", "/data/c"]);
}

#[test]
fn age_does_not_matter_without_a_least_age() {
    assert_eq!(
        empties(&scan(&settings(), vec![dir(""), aged("a", 0)])),
        vec!["/data/a"]
    );
}

#[test]
fn what_lies_too_deep_keeps_what_is_above() {
    let entries = vec![dir(""), dir("a"), dir("a/b"), dir("a/b/c"), dir("d"), dir("d/e")];
    let s = |max_depth: i32| ScanSettings {
        max_depth,
        ..settings()
    };
    assert!(scan(&s(0), entries.clone()).is_empty());
    assert!(scan(&s(1), entries.clone()).is_empty());
    assert_eq!(empties(&scan(&s(2), entries.clone())), vec!["/data/d", "/data/d/e"]);
    assert_eq!(empties(&scan(&s(3), entries.clone())).len(), 5);
    assert_eq!(empties(&scan(&s(-1), entries)).len(), 5);
}

#[test]
fn first_find_of_a_directory_decides() {
    let s = ScanSettings {
        min_age_hours: 1,
        ..settings()
    };
    let old_first = vec![dir(""), aged("a", 9999), aged("a", 1)];
    let young_first = vec![dir(""), aged("a", 1), aged("a", 9999)];
    assert_eq!(empties(&scan(&s, old_first)), vec!["/data/a"]);
    assert!(scan(&s, young_first).is_empty());
}

#[test]
fn broken_names_are_told_apart_and_shown_with_marks() {
    let bad = |b: u8| Entry {
        path: TreePath {
            names: vec![Name {
                raw: vec![b'x', b],
                text: "x\u{fffd}".to_string(),
            }],
        },
        ..dir("")
    };
    let nodes = scan(&settings(), vec![dir(""), bad(0xff), bad(0xfe)]);
    assert_eq!(nodes.len(), 3);
    assert_eq!(nodes[1].name, "x\u{fffd}");
    assert_eq!(nodes[2].name, "x\u{fffd}");
    assert_eq!(nodes[1].path.names[0].raw, vec![b'x', 0xfe]);
    assert_eq!(root().path_text(&nodes[2].path), "/data/x\u{fffd}");
}

#[test]
fn tree_marks_follow_the_directories() {
    let nodes = scan(
        &settings(),
        vec![dir(""), dir("a"), dir("a/b"), dir("a/c"), dir("a-b"), dir("d")],
    );
    let marks: Vec<(String, bool, bool)> = nodes
        .iter()
        .map(|n| (n.name.clone(), n.has_children, n.is_last_sibling))
        .collect();
    assert_eq!(
        marks,
        vec![
            ("/data".to_string(), true, true),
            ("a".to_string(), true, false),
            ("b".to_string(), false, false),
            ("c".to_string(), false, true),
            ("a-b".to_string(), false, false),
            ("d".to_string(), false, true),
        ]
    );
}

#[test]
fn ignoring_more_reports_no_less() {
    let entries = vec![dir(""), dir("a"), file("a/x", 1), dir("b")];
    let more = ScanSettings {
        ignore_files: vec!["x".to_string()],
        ..settings()
    };
    let few = empties(&scan(&settings(), entries.clone()));
    let many = empties(&scan(&more, entries));
    assert_eq!(few, vec!["/data/b"]);
    assert_eq!(many, vec!["/data/a", "/data/b"]);
}

#[test]
fn walk_order_is_by_name_then_below() {
    let entries = vec![dir("b"), dir("a/c"), dir("a"), dir("a-c"), dir("a")];
    assert_eq!(order_by_path(&entries), vec![2, 4, 1, 3, 0]);
}

#[test]
fn paths_have_their_place() {
    assert_eq!(path("a/b").place(&path("a-b")), Place::Before);
    assert_eq!(path("a").place(&path("a/b")), Place::Before);
    assert_eq!(path("a/b").place(&path("a/b")), Place::Same);
    assert_eq!(path("b").place(&path("a/z")), Place::After);
    assert_eq!(path("a/b/c").shared_len(&path("a/b/d")), 2);
    assert_eq!(path("a/b/c").prefix(2), path("a/b"));
    assert_eq!(place_bytes(&vec![1, 2], &vec![1, 3]), Place::Before);
    assert_eq!(place_bytes(&vec![2], &vec![1, 3]), Place::After);
}

#[test]
fn texts_of_paths_follow_the_root() {
    let top = ScanRoot {
        text: "/".to_string(),
        base: "/".to_string(),
        sep: '/',
    };
    assert_eq!(top.path_text(&path("")), "/");
    assert_eq!(top.path_text(&path("a/b")), "/a/b");
    let dot = ScanRoot {
        text: ".".to_string(),
        base: "./".to_string(),
        sep: '\\',
    };
    assert_eq!(dot.path_text(&path("a/b")), "./a\\b");
    assert_eq!(dot.label(&path("a/b")), "b");
    assert_eq!(dot.label(&path("")), ".");
}

#[test]
fn probes_are_made_only_where_they_matter() {
    let age = ScanSettings {
        min_age_hours: 1,
        ..settings()
    };
    let size = ScanSettings {
        consider_empty_files_empty: true,
        ..settings()
    };
    assert_eq!(probe_for(&age, EntryKind::Dir), Probe::Age);
    assert_eq!(probe_for(&age, EntryKind::File), Probe::Nothing);
    assert_eq!(probe_for(&size, EntryKind::Dir), Probe::Nothing);
    assert_eq!(probe_for(&size, EntryKind::File), Probe::Size);
    assert_eq!(probe_for(&size, EntryKind::Other), Probe::Nothing);
}

#[test]
fn one_pass_is_enough() {
    let s = ScanSettings {
        ignore_files: vec!["*.tmp".to_string()],
        ignore_hidden: true,
        max_depth: 3,
        ..settings()
    };
    let entries = vec![
        dir(""),
        dir("a"),
        dir("a/b"),
        file("a/b/x.tmp", 4),
        dir("c"),
        dir("c/.h"),
        dir("c/d"),
        dir("e"),
        dir("e/f"),
        dir("e/f/g"),
        dir("e/f/g/h"),
        dir("e/i"),
    ];
    let gone: Vec<TreePath> = scan(&s, entries.clone())
        .into_iter()
        .filter(|n| n.status == EMPTY)
        .map(|n| n.path)
        .collect();
    assert_eq!(gone.len(), 4);
    let left: Vec<Entry> = entries
        .into_iter()
        .filter(|e| !gone.iter().any(|g| e.path.shared_len(g) == g.names.len()))
        .collect();
    assert_eq!(left.len(), 7);
    assert!(scan(&s, left).is_empty());
}

#[test]
fn only_what_a_scan_reports_is_planned() {
    let nodes = scan(
        &settings(),
        vec![dir(""), dir("a"), file("a/f", 1), dir("a/b"), dir("a/b/c"), dir("d")],
    );
    let run = DeleteRun::start(&nodes);
    let planned: Vec<String> = run
        .order
        .iter()
        .map(|&i| root().path_text(&nodes[i].path))
        .collect();
    assert_eq!(planned, vec!["/data/a/b/c", "/data/a/b", "/data/d"]);
    let mut reported = empties(&nodes);
    reported.sort();
    let mut sorted = planned;
    sorted.sort();
    assert_eq!(sorted, reported);
}

#[test]
fn facts_that_were_not_asked_for_do_not_matter() {
    let plain = vec![dir(""), dir("a"), dir("b"), file("b/f", 7)];
    let odd = vec![
        dir(""),
        aged("a", 0),
        aged("b", 1),
        Entry {
            size: None,
            ..file("b/f", 7)
        },
    ];
    assert_eq!(
        shown(&scan(&settings(), plain)),
        shown(&scan(&settings(), odd))
    );
}

#[test]
fn a_name_is_judged_by_the_text_that_is_shown_for_it() {
    let lone = Name {
        raw: vec![b'x', 0xed, 0xa0, 0x80],
        text: "x\u{fffd}".to_string(),
    };
    let found = |kind: EntryKind| Entry {
        path: TreePath {
            names: vec![name("a"), lone.clone()],
        },
        kind,
        age_secs: None,
        size: Some(9),
    };
    let one_mark = ScanSettings {
        ignore_files: vec!["x?".to_string()],
        ..settings()
    };
    let three_marks = ScanSettings {
        ignore_files: vec!["x???".to_string()],
        ..settings()
    };
    assert!(!one_mark.is_kept(&found(EntryKind::File)));
    assert!(three_marks.is_kept(&found(EntryKind::File)));
    let nodes = scan(&settings(), vec![dir(""), dir("a"), found(EntryKind::Dir)]);
    assert_eq!(nodes[2].name, "x\u{fffd}");
    assert_eq!(root().path_text(&nodes[2].path), "/data/a/x\u{fffd}");
}

#[test]
fn names_are_ordered_by_their_bytes() {
    let shown = |raw: &[u8], text: &str| Name {
        raw: raw.to_vec(),
        text: text.to_string(),
    };
    assert_eq!(place_name(&shown(b"a", "z"), &shown(b"b", "a")), Place::Before);
    assert_eq!(place_name(&shown(b"b", "a"), &shown(b"a", "z")), Place::After);
    assert_eq!(place_name(&name("a"), &name("a")), Place::Same);
    assert_eq!(place_name(&shown(b"a", "p"), &shown(b"a", "q")), Place::Before);
}

#[test]
fn looser_settings_report_no_less() {
    let entries = || {
        vec![
            dir(""),
            aged("old", 99_999),
            aged("new", 10),
            dir(".git"),
            dir("cache"),
            dir("deep"),
            dir("deep/er"),
            dir("files"),
            file("files/a.tmp", 3),
        ]
    };
    let strict = ScanSettings {
        ignore_files: Vec::new(),
        ignore_dirs: vec!["cache".to_string()],
        ignore_hidden: true,
        keep_system: true,
        min_age_hours: 1,
        max_depth: 1,
        consider_empty_files_empty: false,
    };
    let loose = ScanSettings {
        ignore_files: vec!["*.tmp".to_string()],
        ignore_dirs: Vec::new(),
        ignore_hidden: false,
        keep_system: false,
        min_age_hours: 0,
        max_depth: -1,
        consider_empty_files_empty: true,
    };
    assert_eq!(empties(&scan(&strict, entries())), vec!["/data/old"]);
    assert_eq!(
        empties(&scan(&loose, entries())),
        vec![
            "/data/.git",
            "/data/cache",
            "/data/deep",
            "/data/deep/er",
            "/data/files",
            "/data/new",
            "/data/old",
        ]
    );
}
