use anytype_caldav::event_changes::{parse_series, EventWriteError};
use anytype_caldav::nesting::{is_shallow, DEEPEST};
use anytype_caldav::writeback::{parse, WriteError};

/// So many components in one another.
fn nested(depth: usize) -> String {
    let mut body = "BEGIN:VCALENDAR\r\n".to_string();
    body.push_str(&"BEGIN:X\r\n".repeat(depth - 1));
    body.push_str(&"END:X\r\n".repeat(depth - 1));
    body.push_str("END:VCALENDAR\r\n");
    body
}

/// So many tasks with an alarm each.
fn tasks(count: usize, end: &str) -> String {
    let mut lines = vec!["BEGIN:VCALENDAR".to_string()];
    for n in 0..count {
        lines.push("BEGIN:VTODO".into());
        lines.push(format!("UID:u{n}"));
        lines.push("SUMMARY;X-ALT=\"a:b\",\"c;d\";LANGUAGE=ru:\"Хлеб\"; BEGIN:X".into());
        lines.push("DUE;VALUE=DATE:20260830".into());
        lines.push("BEGIN:VALARM".into());
        lines.push("ACTION:DISPLAY".into());
        lines.push("END:VALARM".into());
        lines.push("END:VTODO".into());
    }
    lines.push("END:VCALENDAR".into());
    lines.join(end) + end
}

#[test]
fn a_document_that_is_nested_too_deeply_is_refused() {
    assert!(is_shallow(&nested(DEEPEST)));
    assert_eq!(parse(&nested(DEEPEST)), Err(WriteError::NoTodo));
    assert_eq!(parse_series(&nested(DEEPEST)), Err(EventWriteError::NoEvent));
    let why = "the components are nested too deeply".to_string();
    for depth in [DEEPEST + 1, 100_000] {
        assert!(!is_shallow(&nested(depth)));
        assert_eq!(parse(&nested(depth)), Err(WriteError::NotCalendar(why.clone())));
        assert_eq!(parse_series(&nested(depth)), Err(EventWriteError::NotCalendar(why.clone())));
    }
}

#[test]
fn components_side_by_side_are_not_nested() {
    for end in ["\r\n", "\n"] {
        let body = tasks(2_000, end);
        assert!(is_shallow(&body));
        assert_eq!(parse(&body), Err(WriteError::Overrides(2_000)));
    }
    assert_eq!(parse(&tasks(1, "\r\n")).unwrap().uid.as_deref(), Some("u0"));
}

#[test]
fn a_line_that_may_hide_the_end_of_a_component_is_no_end() {
    let mut quoted = "X;P=\"\r\nEND:X\r\n\":\r\n".to_string();
    let deep = nested(DEEPEST + 1);
    quoted.push_str("BEGIN:X\r\n");
    assert!(!is_shallow(&deep.replace("BEGIN:X\r\n", &quoted)));
    // Folded, in small letters, behind another line break.
    assert!(!is_shallow(&deep.replace("BEGIN:X", "BE\r\n\tgin:X")));
    assert!(!is_shallow(&deep.replace("BEGIN:X\r\n", "begin:X\n")));
    // Few components need no such care.
    assert!(is_shallow("BEGIN:VCALENDAR\nX;P=\"\r\nEND:X\r\n\":\r\nEND:VCALENDAR\n"));
}
