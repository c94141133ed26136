use anytype_caldav::state::{accept_version, trigger_millis, ReminderOutcome, StateError};

#[test]
fn a_newer_schema_is_rejected_instead_of_downgraded() {
    assert!(accept_version(0).is_ok());
    assert!(accept_version(1).is_ok());
    match accept_version(2) {
        Err(StateError::UnsupportedSchema { found, supported }) => {
            assert_eq!((found, supported), (2, 1));
        }
        other => panic!("a newer schema must be rejected: {other:?}"),
    }
}

#[test]
fn reminders_are_remembered_by_the_millisecond() {
    assert_eq!(trigger_millis(1_999_999), 1);
    assert_eq!(trigger_millis(-1), -1);
    assert_eq!(trigger_millis(1_788_066_000_000_000_000), 1_788_066_000_000);
    assert_eq!(ReminderOutcome::Attempted.as_str(), "attempted");
    assert_eq!(ReminderOutcome::Expired.as_str(), "expired");
}

#[test]
fn a_failure_of_the_database_is_told_in_words() {
    let at = |path: &str, source: &str| (path.to_string(), source.to_string());
    let (path, source) = at("d", "no");
    assert_eq!(
        StateError::Directory { path, source }.message(),
        "cannot create the push state directory d: no"
    );
    let (path, source) = at("f", "no");
    assert_eq!(
        StateError::File { path, source }.message(),
        "cannot create the push state file f: no"
    );
    let (path, source) = at("o", "no");
    assert_eq!(
        StateError::Open { path, source }.message(),
        "cannot open or initialize the push state database o: no"
    );
    assert_eq!(
        StateError::UnsupportedSchema { found: 2, supported: 1 }.message(),
        "push state schema version 2 is newer than supported version 1"
    );
    assert_eq!(
        StateError::Database("x".to_string()).message(),
        "push state database operation failed: x"
    );
    assert_eq!(StateError::Poisoned.message(), "push state lock is poisoned");
}
