use red::feed::{Dispatch, LogEvent, LogWindow, UiLogger, WINDOW};

fn msg(s: &str) -> LogEvent {
    LogEvent::Msg(s.to_string())
}

fn describe(d: Dispatch) -> Vec<String> {
    match d {
        Dispatch::Send(events) => events.iter().map(|e| format!("{e:?}")).collect(),
        Dispatch::Print(line) => vec![format!("print {line}")],
        Dispatch::Drop => Vec::new(),
    }
}

#[test]
fn connected_logger_sends() {
    let l = UiLogger { connected: true };
    assert_eq!(describe(l.log("hi")), vec!["Msg(\"hi\\n\")"]);
    assert_eq!(
        describe(l.status("gone", 3, 2)),
        vec!["Msg(\"gone\\n\")", "StatusChange(3, 2)"]
    );
    assert_eq!(
        describe(l.progress(1, 4)),
        vec!["Progress { done: 1, total: 4 }"]
    );
}

#[test]
fn lone_logger_prints() {
    let l = UiLogger { connected: false };
    assert_eq!(describe(l.log("hi")), vec!["print hi"]);
    assert_eq!(describe(l.status("gone", 3, 2)), vec!["print gone"]);
    assert!(describe(l.progress(1, 4)).is_empty());
}

#[test]
fn window_sorts_events() {
    let mut w = LogWindow::new();
    let digest = w.absorb(&vec![
        msg("a\n"),
        LogEvent::StatusChange(1, 2),
        LogEvent::Progress { done: 1, total: 3 },
        msg("b\n"),
        LogEvent::StatusChange(2, 4),
        LogEvent::Progress { done: 2, total: 3 },
    ]);
    assert_eq!(digest.status_updates, vec![(1, 2), (2, 4)]);
    assert_eq!(digest.progress_update, Some((2, 3)));
    assert_eq!(w.text(), "a\nb\n");
    let quiet = w.absorb(&vec![msg("c\n")]);
    assert!(quiet.status_updates.is_empty());
    assert_eq!(quiet.progress_update, None);
    assert_eq!(w.text(), "a\nb\nc\n");
}

#[test]
fn window_keeps_the_latest() {
    let many: Vec<LogEvent> = (0..WINDOW + 3).map(|i| msg(&format!("{i};"))).collect();
    let mut at_once = LogWindow::new();
    at_once.absorb(&many);
    assert_eq!(at_once.logs.len(), WINDOW);
    assert!(at_once.text().starts_with("3;4;"));
    assert!(at_once.text().ends_with("252;"));
    let mut in_turn = LogWindow::new();
    for e in &many {
        in_turn.absorb(&vec![e.clone()]);
    }
    assert_eq!(in_turn.text(), at_once.text());
}
