use red::session::{CliRequest, Mode, WindowForm};

fn request() -> CliRequest {
    CliRequest {
        path: None,
        quiet: false,
        delete: false,
        max_depth: -1,
        delete_permanently: false,
        ignore_files: "desktop.ini,Thumbs.db,.DS_Store".to_string(),
        ignore_dirs: "System Volume Information,RECYCLER,Recycled,$RECYCLE.BIN".to_string(),
        ignore_hidden: true,
        keep_system: true,
        min_age_hours: 0,
        consider_empty_files_empty: true,
    }
}

#[test]
fn modes_follow_the_switches() {
    let mut r = request();
    assert_eq!(r.mode(), Mode::Window);
    r.path = Some("x".to_string());
    assert_eq!(r.mode(), Mode::Window);
    r.quiet = true;
    assert_eq!(r.mode(), Mode::Console);
    r.quiet = false;
    r.delete = true;
    assert_eq!(r.mode(), Mode::Console);
    r.path = None;
    assert_eq!(r.mode(), Mode::MissingPath);
}

#[test]
fn command_line_lists_are_split_at_commas() {
    let s = request().scan_settings();
    assert_eq!(s.ignore_files, vec!["desktop.ini", "Thumbs.db", ".DS_Store"]);
    assert_eq!(
        s.ignore_dirs,
        vec!["System Volume Information", "RECYCLER", "Recycled", "$RECYCLE.BIN"]
    );
    assert!(s.ignore_hidden && s.keep_system && s.consider_empty_files_empty);
    assert_eq!((s.min_age_hours, s.max_depth), (0, -1));
}

#[test]
fn trash_is_the_default() {
    let d = request().delete_settings();
    assert!(d.move_to_trash && d.ignore_errors);
    assert_eq!(d.pause_ms, 0);
    assert_eq!(d.ignore_files, request().scan_settings().ignore_files);
    let r = CliRequest {
        delete_permanently: true,
        ..request()
    };
    assert!(!r.delete_settings().move_to_trash);
}

#[test]
fn deletion_needs_something_to_delete() {
    let mut r = request();
    assert!(!r.deletes(3));
    r.delete = true;
    assert!(r.deletes(3));
    assert!(!r.deletes(0));
}

#[test]
fn form_lists_are_split_at_lines() {
    let form = WindowForm {
        ignore_files: "a, b\n\n *.tmp \n".to_string(),
        ignore_dirs: "x\ny".to_string(),
        ignore_hidden: true,
        keep_system: false,
        min_age_hours: 5,
        max_depth: 3,
        consider_empty_files_empty: false,
        delete_mode: 1,
        ignore_errors: true,
        pause_ms: -1,
    };
    let s = form.scan_settings();
    assert_eq!(s.ignore_files, vec!["a, b", "*.tmp"]);
    assert_eq!(s.ignore_dirs, vec!["x", "y"]);
    assert_eq!((s.min_age_hours, s.max_depth), (5, 3));
    let d = form.delete_settings();
    assert!(!d.move_to_trash && d.ignore_errors && !d.consider_empty_files_empty);
    assert_eq!(d.pause_ms, u32::MAX);
    assert!(WindowForm { delete_mode: 0, ..form }.delete_settings().move_to_trash);
}
