//! What can go wrong when the space is read or written.
use vstd::prelude::*;

verus! {

#[derive(Debug)]
pub enum SourceError {
    /// The source could not be reached or answered with a transport failure.
    Transport(String),
    /// The configuration does not match the live schema. Distinguished from
    /// `Transport` because retrying will never fix it.
    Schema(String),
    /// More objects than `max_objects`.
    TooManyObjects(String),
}

impl SourceError {
    /// The category of an error that is shown over HTTP.
    pub open spec fn category(self) -> &'static str {
        match self {
            SourceError::Transport(_) => "anytype unavailable",
            SourceError::Schema(_) => "exporter misconfigured",
            SourceError::TooManyObjects(_) => "source too large",
        }
    }

    /// The category shown over HTTP. Detailed diagnostics stay in the log so
    /// nothing from the API key or an upstream response body can leak.
    pub fn public_category(&self) -> (r: &'static str)
        ensures
            r@ == self.category()@,
    {
        match self {
            SourceError::Transport(_) => "anytype unavailable",
            SourceError::Schema(_) => "exporter misconfigured",
            SourceError::TooManyObjects(_) => "source too large",
        }
    }

    /// The error in words.
    pub fn message(&self) -> (r: String)
        ensures
            r@ == (match self {
                SourceError::Transport(m) => "anytype request failed: "@ + m@,
                SourceError::Schema(m) => "configuration does not match the anytype schema: "@
                    + m@,
                SourceError::TooManyObjects(m) => m@,
            }),
    {
        match self {
            SourceError::Transport(m) => crate::text::glue("anytype request failed: ", m.as_str()),
            SourceError::Schema(m) => crate::text::glue(
                "configuration does not match the anytype schema: ",
                m.as_str(),
            ),
            SourceError::TooManyObjects(m) => m.clone(),
        }
    }
}

} // verus!
