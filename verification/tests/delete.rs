use red::clean::{
    after_check, after_removal, clean_and_verify_empty, AfterCheck, Child, CleanAction, CleanEvent,
    Outcome, Removal,
};
use red::entry::{Entry, EntryKind};
use red::delete::{delete_empty_dirs, DeleteEvent, DeleteRun};
use red::outline::{DirectoryNode, DELETED, EMPTY, FAILED, SHOWN};
use red::path::{Name, ScanRoot, TreePath};
use red::rows::count_empty;
use red::settings::{DeleteSettings, ScanSettings};

fn root() -> ScanRoot {
    ScanRoot {
        text: "r".to_string(),
        base: "r/".to_string(),
        sep: '/',
    }
}

fn name(text: &str) -> Name {
    Name {
        raw: text.as_bytes().to_vec(),
        text: text.to_string(),
    }
}

fn node(p: &str, status: i32) -> DirectoryNode {
    let names: Vec<Name> = p
        .split('/')
        .filter(|s| !s.is_empty())
        .map(name)
        .collect();
    DirectoryNode {
        depth: names.len() as i32,
        name: p.to_string(),
        path: TreePath { names },
        status,
        has_children: false,
        is_expanded: true,
        is_last_sibling: false,
    }
}

fn outline() -> Vec<DirectoryNode> {
    vec![
        node("", SHOWN),
        node("a", EMPTY),
        node("a/b", EMPTY),
        node("c", SHOWN),
        node("c/d", EMPTY),
        node("e", EMPTY),
    ]
}

fn settings(ignore_errors: bool, pause_ms: u32) -> DeleteSettings {
    DeleteSettings {
        move_to_trash: true,
        ignore_errors,
        pause_ms,
        ignore_files: vec!["*.tmp".to_string()],
        consider_empty_files_empty: true,
    }
}

fn statuses(nodes: &[DirectoryNode]) -> Vec<i32> {
    nodes.iter().map(|n| n.status).collect()
}

fn told(events: &[DeleteEvent]) -> Vec<String> {
    events
        .iter()
        .map(|e| match e {
            DeleteEvent::Progress { done, total } => format!("{done}/{total}"),
            DeleteEvent::Log { message, index, status } => format!("{index} {status} {message}"),
            DeleteEvent::Pause { ms } => format!("wait {ms}"),
        })
        .collect()
}

#[test]
fn deepest_directories_go_first() {
    let nodes = outline();
    let run = DeleteRun::start(&nodes);
    assert_eq!(run.order, vec![2, 4, 1, 5]);
    assert_eq!(run.order.len(), count_empty(&nodes));
    assert_eq!(run.pending(&settings(true, 0), &nodes), vec![2, 4]);
    assert_eq!(run.pending(&settings(true, 7), &nodes), vec![2]);
}

#[test]
fn nothing_to_delete_is_over_at_once() {
    let nodes = vec![node("", SHOWN), node("a", FAILED)];
    let run = DeleteRun::start(&nodes);
    assert!(run.pending(&settings(true, 0), &nodes).is_empty());
    assert_eq!(run.totals(), (0, 0));
}

#[test]
fn whole_run_without_pause() {
    let mut nodes = outline();
    let s = settings(true, 0);
    let mut run = DeleteRun::start(&nodes);
    let first = delete_empty_dirs(
        &root(),
        &mut nodes,
        &s,
        &mut run,
        &vec![Outcome::Removed, Outcome::CheckFailed("denied".to_string())],
    );
    assert_eq!(
        told(&first),
        vec![
            "1/4",
            "2 2 Deleted: r/a/b",
            "2/4",
            "4 4 Failed to delete r/c/d: denied",
        ]
    );
    assert_eq!(run.pending(&s, &nodes), vec![1, 5]);
    let second = delete_empty_dirs(
        &root(),
        &mut nodes,
        &s,
        &mut run,
        &vec![Outcome::RemoveFailed("busy".to_string()), Outcome::NotReady],
    );
    assert_eq!(
        told(&second),
        vec![
            "3/4",
            "1 4 Failed to delete r/a: busy",
            "4/4",
            "5 4 Failed to delete r/e: Directory is not empty",
        ]
    );
    assert!(run.pending(&s, &nodes).is_empty());
    assert_eq!(run.totals(), (1, 3));
    assert!(!run.aborted);
    assert_eq!(
        statuses(&nodes),
        vec![SHOWN, FAILED, DELETED, SHOWN, FAILED, FAILED]
    );
}

#[test]
fn failure_ends_the_run_unless_ignored() {
    let mut nodes = outline();
    let s = settings(false, 0);
    let mut run = DeleteRun::start(&nodes);
    let events = delete_empty_dirs(
        &root(),
        &mut nodes,
        &s,
        &mut run,
        &vec![Outcome::RemoveFailed("busy".to_string()), Outcome::Removed],
    );
    assert_eq!(
        told(&events),
        vec![
            "1/4",
            "2 4 Failed to delete r/a/b: busy",
            "2 4 Aborting deletion due to error.",
        ]
    );
    assert!(run.aborted);
    assert_eq!(run.totals(), (0, 1));
    assert!(run.pending(&s, &nodes).is_empty());
    assert_eq!(
        statuses(&nodes),
        vec![SHOWN, EMPTY, FAILED, SHOWN, EMPTY, EMPTY]
    );
}

#[test]
fn run_with_pauses_goes_one_by_one() {
    let mut nodes = outline();
    let s = settings(false, 40);
    let mut run = DeleteRun::start(&nodes);
    let first = delete_empty_dirs(&root(), &mut nodes, &s, &mut run, &vec![Outcome::Removed]);
    assert_eq!(told(&first), vec!["2 2 Deleted: r/a/b", "1/4", "wait 40"]);
    assert_eq!(run.pending(&s, &nodes), vec![4]);
    let second = delete_empty_dirs(
        &root(),
        &mut nodes,
        &s,
        &mut run,
        &vec![Outcome::CheckFailed("denied".to_string())],
    );
    assert_eq!(
        told(&second),
        vec![
            "4 4 Failed to delete r/c/d: Not empty or inaccessible",
            "4 4 Aborting deletion due to error.",
        ]
    );
    assert!(run.pending(&s, &nodes).is_empty());
    assert_eq!(run.totals(), (1, 1));
}

#[test]
fn reasons_of_removal_are_told_with_pauses_too() {
    let mut nodes = outline();
    let s = settings(true, 1);
    let mut run = DeleteRun::start(&nodes);
    let first = delete_empty_dirs(
        &root(),
        &mut nodes,
        &s,
        &mut run,
        &vec![Outcome::RemoveFailed("busy".to_string())],
    );
    assert_eq!(
        told(&first),
        vec!["2 4 Failed to delete r/a/b: busy", "1/4", "wait 1"]
    );
    let second = delete_empty_dirs(&root(), &mut nodes, &s, &mut run, &vec![Outcome::NotReady]);
    assert_eq!(
        told(&second),
        vec![
            "4 4 Failed to delete r/c/d: Not empty or inaccessible",
            "2/4",
            "wait 1",
        ]
    );
}

fn child(name: &str, is_symlink: bool, is_file: bool, size: Option<u64>) -> Child {
    Child {
        name: name.to_string(),
        is_symlink,
        is_file,
        size,
    }
}

#[test]
fn children_that_may_go_are_picked() {
    let children = vec![
        child("a.tmp", false, true, Some(5)),
        child("keep", false, true, Some(5)),
        child("none", false, true, Some(0)),
        child("unknown", false, true, None),
        child("l.tmp", true, false, None),
        child("l", true, true, Some(0)),
        child("d.tmp", false, false, Some(0)),
    ];
    let s = settings(true, 0);
    match clean_and_verify_empty(&s, CleanEvent::Listed(Some(children.clone()))) {
        CleanAction::Remove(places) => assert_eq!(places, vec![0, 2, 4]),
        other => panic!("{:?}", other),
    }
    let strict = DeleteSettings {
        consider_empty_files_empty: false,
        ..s
    };
    match clean_and_verify_empty(&strict, CleanEvent::Listed(Some(children))) {
        CleanAction::Remove(places) => assert_eq!(places, vec![0, 4]),
        other => panic!("{:?}", other),
    }
    match clean_and_verify_empty(&strict, CleanEvent::Listed(None)) {
        CleanAction::Remove(places) => assert!(places.is_empty()),
        other => panic!("{:?}", other),
    }
}

fn done(s: &DeleteSettings, event: CleanEvent) -> Result<bool, String> {
    match clean_and_verify_empty(s, event) {
        CleanAction::Done(check) => check,
        other => panic!("{:?}", other),
    }
}

#[test]
fn links_are_ready_as_they_are() {
    let s = settings(true, 0);
    assert_eq!(done(&s, CleanEvent::Looked(Ok(true))), Ok(true));
    assert!(matches!(
        clean_and_verify_empty(&s, CleanEvent::Looked(Ok(false))),
        CleanAction::List
    ));
    assert_eq!(
        done(&s, CleanEvent::Looked(Err("gone".to_string()))),
        Err("gone".to_string())
    );
}

#[test]
fn readiness_is_what_is_left() {
    let s = settings(true, 0);
    assert_eq!(done(&s, CleanEvent::Relisted(Ok(false))), Ok(true));
    assert_eq!(
        done(&s, CleanEvent::Relisted(Ok(true))),
        Err("Directory is not empty (contains non-ignored files)".to_string())
    );
    assert_eq!(
        done(&s, CleanEvent::Relisted(Err("denied".to_string()))),
        Err("Failed to verify directory: denied".to_string())
    );
}

fn way(s: &DeleteSettings, is_symlink: bool) -> Removal {
    match after_check(s, Ok(true), is_symlink) {
        AfterCheck::Remove(how) => how,
        other => panic!("{:?}", other),
    }
}

#[test]
fn links_are_never_trashed() {
    let trash = settings(true, 0);
    let remove = DeleteSettings {
        move_to_trash: false,
        ..settings(true, 0)
    };
    assert_eq!(way(&trash, false), Removal::Trash);
    assert_eq!(way(&trash, true), Removal::Unlink);
    assert_eq!(way(&remove, false), Removal::RemoveDir);
    assert_eq!(way(&remove, true), Removal::Unlink);
}

#[test]
fn attempts_that_end_early_are_settled() {
    let s = settings(true, 0);
    assert!(matches!(
        after_check(&s, Ok(false), false),
        AfterCheck::Settled(Outcome::NotReady)
    ));
    match after_check(&s, Err("why".to_string()), false) {
        AfterCheck::Settled(Outcome::CheckFailed(why)) => assert_eq!(why, "why"),
        other => panic!("{:?}", other),
    }
    assert!(matches!(after_removal(Ok(())), Outcome::Removed));
    match after_removal(Err("why".to_string())) {
        Outcome::RemoveFailed(why) => assert_eq!(why, "why"),
        other => panic!("{:?}", other),
    }
}

#[test]
fn scan_and_deletion_agree_on_files() {
    let del = settings(true, 0);
    let scan = ScanSettings {
        ignore_files: del.ignore_files.clone(),
        ignore_dirs: Vec::new(),
        ignore_hidden: false,
        keep_system: false,
        min_age_hours: 0,
        max_depth: -1,
        consider_empty_files_empty: del.consider_empty_files_empty,
    };
    for (shown, size) in [("a.tmp", 3), ("a", 3), ("a", 0), ("b.tmp", 0)] {
        let e = Entry {
            path: TreePath {
                names: vec![name("d"), name(shown)],
            },
            kind: EntryKind::File,
            age_secs: None,
            size: Some(size),
        };
        assert_eq!(scan.is_kept(&e), !del.may_remove(&child(shown, false, true, Some(size))));
    }
}

#[test]
fn batches_follow_on() {
    let s = settings(true, 0);
    let outcomes = [
        Outcome::Removed,
        Outcome::NotReady,
        Outcome::RemoveFailed("busy".to_string()),
        Outcome::Removed,
    ];
    let mut at_once = outline();
    let mut one = DeleteRun::start(&at_once);
    let all = delete_empty_dirs(&root(), &mut at_once, &s, &mut one, &outcomes.to_vec());
    let mut in_turn = outline();
    let mut two = DeleteRun::start(&in_turn);
    let mut parts = Vec::new();
    for part in outcomes.chunks(2) {
        parts.extend(delete_empty_dirs(
            &root(),
            &mut in_turn,
            &s,
            &mut two,
            &part.to_vec(),
        ));
    }
    assert_eq!(told(&parts), told(&all));
    assert_eq!(statuses(&in_turn), statuses(&at_once));
    assert_eq!(two.totals(), one.totals());
    assert_eq!(one.totals(), (2, 2));
    assert_eq!((one.done, two.done), (4, 4));
}
