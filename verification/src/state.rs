//! What is remembered of reminders.
use vstd::prelude::*;

use crate::text;
use crate::text::Text;

verus! {

/// The version of the database that is read and written.
pub const SCHEMA_VERSION: i64 = 1;

#[derive(Debug)]
pub enum StateError {
    Directory { path: String, source: String },
    File { path: String, source: String },
    Open { path: String, source: String },
    UnsupportedSchema { found: i64, supported: i64 },
    Database(String),
    Poisoned,
}

/// What is said of something that failed at a path.
pub open spec fn failed_at(what: Text, path: Text, source: Text) -> Text {
    what + path + ": "@ + source
}

fn fail_at(what: &str, path: &str, source: &str) -> (r: String)
    ensures
        r@ == failed_at(what@, path@, source@),
{
    let mut m = text::glue(what, path);
    m.append(": ");
    m.append(source);
    m
}

impl StateError {
    pub open spec fn words(self) -> Text {
        match self {
            StateError::Directory { path, source } => failed_at(
                "cannot create the push state directory "@,
                path@,
                source@,
            ),
            StateError::File { path, source } => failed_at(
                "cannot create the push state file "@,
                path@,
                source@,
            ),
            StateError::Open { path, source } => failed_at(
                "cannot open or initialize the push state database "@,
                path@,
                source@,
            ),
            StateError::UnsupportedSchema { found, supported } => "push state schema version "@
                + text::signed_decimal(found as int) + " is newer than supported version "@
                + text::signed_decimal(supported as int),
            StateError::Database(source) => "push state database operation failed: "@ + source@,
            StateError::Poisoned => "push state lock is poisoned"@,
        }
    }

    /// The error in words.
    pub fn message(&self) -> (r: String)
        ensures
            r@ == self.words(),
    {
        match self {
            StateError::Directory { path, source } => fail_at(
                "cannot create the push state directory ",
                path.as_str(),
                source.as_str(),
            ),
            StateError::File { path, source } => fail_at(
                "cannot create the push state file ",
                path.as_str(),
                source.as_str(),
            ),
            StateError::Open { path, source } => fail_at(
                "cannot open or initialize the push state database ",
                path.as_str(),
                source.as_str(),
            ),
            StateError::UnsupportedSchema { found, supported } => {
                let mut m = text::glue(
                    "push state schema version ",
                    text::signed_number(*found).as_str(),
                );
                m.append(" is newer than supported version ");
                m.append(text::signed_number(*supported).as_str());
                m
            },
            StateError::Database(source) => text::glue(
                "push state database operation failed: ",
                source.as_str(),
            ),
            StateError::Poisoned => "push state lock is poisoned".to_owned(),
        }
    }
}

/// Whether a database of this version may be opened: a newer one is refused rather than
/// brought down to this version.
pub fn accept_version(found: i64) -> (r: Result<(), StateError>)
    ensures
        match r {
            Ok(()) => found <= SCHEMA_VERSION,
            Err(StateError::UnsupportedSchema { found: version, supported }) => found
                > SCHEMA_VERSION && version == found && supported == SCHEMA_VERSION,
            Err(_) => false,
        },
{
    if found > SCHEMA_VERSION {
        Err(StateError::UnsupportedSchema { found, supported: SCHEMA_VERSION })
    } else {
        Ok(())
    }
}

#[derive(Debug, Clone, Copy, PartialEq, Eq, Structural)]
pub enum ReminderOutcome {
    Attempted,
    Expired,
}

impl ReminderOutcome {
    pub fn as_str(self) -> (r: &'static str)
        ensures
            self == ReminderOutcome::Attempted ==> r@ == "attempted"@,
            self == ReminderOutcome::Expired ==> r@ == "expired"@,
    {
        match self {
            ReminderOutcome::Attempted => "attempted",
            ReminderOutcome::Expired => "expired",
        }
    }
}

/// The millisecond that a reminder is remembered by.
pub fn trigger_millis(trigger_at: i128) -> (r: i64)
    requires
        -10_000_000_000_000_000_000_000 <= trigger_at <= 10_000_000_000_000_000_000_000,
    ensures
        r == trigger_at as int / 1_000_000,
{
    // Shifted by whole milliseconds so that what is divided is positive.
    let up: u128 = (trigger_at + 10_000_000_000_000_000_000_000) as u128;
    let r: i64 = (up / 1_000_000) as i64 - 10_000_000_000_000_000;
    proof {
        let rest = up % 1_000_000;
        assert(trigger_at as int == r * 1_000_000 + rest);
        vstd::arithmetic::div_mod::lemma_fundamental_div_mod_converse(
            trigger_at as int,
            1_000_000,
            r as int,
            rest as int,
        );
    }
    r
}

} // verus!
