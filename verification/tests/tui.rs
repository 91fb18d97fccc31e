use porthole::tui::{make_writer, truncate, RowState, LOG_CAP, LOG_SHOWN};

#[test]
fn long_texts_are_cut() {
    assert_eq!(truncate("short", 14), "short");
    assert_eq!(truncate("exactly-14-cha", 14), "exactly-14-cha");
    assert_eq!(truncate("minecraft-server", 14), "minecraft-ser…");
    assert_eq!(truncate("äöüß", 3), "äö…");
    assert_eq!(truncate("ab", 1), "…");
    assert_eq!(truncate("ab", 0), "…");
    assert_eq!(truncate("", 0), "");
}

#[test]
fn log_lines_are_split_and_blank_ones_dropped() {
    let mut log = make_writer();
    log.write("first\r\n\n   \nsecond  \nthird");
    assert_eq!(log.shown(), vec!["first", "second", "third"]);
    log.write(&"x".repeat(100));
    assert_eq!(log.shown()[3], format!("{}…", "x".repeat(77)));
}

#[test]
fn old_log_lines_make_room() {
    let mut log = make_writer();
    for i in 0..LOG_CAP + 50 {
        log.write(&format!("line {i}\n"));
    }
    let shown = log.shown();
    assert_eq!(shown.len(), LOG_SHOWN);
    assert_eq!(shown[0], "line 240");
    assert_eq!(shown[9], "line 249");
    // One text may hold more lines than are kept.
    let mut text = String::new();
    for i in 0..1000 {
        text.push_str(&format!("bulk {i}\n"));
    }
    log.write(&text);
    assert_eq!(log.shown()[9], "bulk 999");
}

#[test]
fn rows_show_errors_first() {
    assert_eq!(RowState::of(true, true), RowState::Rejected);
    assert_eq!(RowState::of(true, false), RowState::Rejected);
    assert_eq!(RowState::of(false, true), RowState::Up);
    assert_eq!(RowState::of(false, false), RowState::Pending);
    assert_eq!(RowState::Rejected.label(), "rejected");
    assert_eq!(RowState::Up.label(), "up");
    assert_eq!(RowState::Pending.label(), "pending");
}
