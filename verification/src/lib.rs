//! The verified core of a bridge between an Anytype space and calendar clients.
//!
//! Everything here is a function of plain values: what a request is answered,
//! which reminders are due, what a calendar entry writes back, which occurrences
//! of a series are still to be made. Reading the space, the database and the
//! network is left to the program around it.
use vstd::prelude::*;

pub mod accounts;
pub mod anytype_source;
pub mod caldav;
pub mod capture;
pub mod config;
pub mod digest;
pub mod edited;
pub mod event_changes;
pub mod event_source;
pub mod events;
pub mod feed;
pub mod fold;
pub mod http;
pub mod ical;
pub mod install;
pub mod locale;
pub mod model;
pub mod nesting;
pub mod object;
pub mod order;
pub mod push;
pub mod recurrence;
pub mod reminder;
pub mod render;
pub mod scheduler;
pub mod series;
pub mod source;
pub mod state;
pub mod table;
pub mod text;
pub mod time;
pub mod unchanged;
pub mod writeback;

verus! {

} // verus!
