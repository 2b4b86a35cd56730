//! The error taxonomy. Every failure is terminal for the run: the caller
//! discards any partially transformed document.

use vstd::prelude::*;

verus! {

/// A failure while parsing or transforming a subtitle document.
#[derive(Debug)]
pub enum SubError {
    /// Unparseable timestamp text, or an out-of-range minutes/seconds
    /// component; carries the offending text.
    TimestampSyntax(String),
    /// A timespan whose resolved end does not come strictly after its start;
    /// carries the offending text.
    TimespanRange(String),
    /// A missing or invalid record number or a malformed timespan line;
    /// carries the offending line.
    SubtitleParse(String),
    /// Forced top placement was requested for a record that already carries a
    /// hard-coded pixel position; carries the record's start time.
    PositionOverrideConflict(i64),
}

impl SubError {
    /// A short description of the error, for display by a caller.
    pub fn describe(&self) -> (r: &'static str)
        ensures
            r@.len() > 0,
    {
        proof {
            reveal_strlit("cannot coerce value into timestamp");
            reveal_strlit("timespan end must come after the start");
            reveal_strlit("malformed subtitle record");
            reveal_strlit("cannot override a hard coded subtitle position");
        }
        match self {
            SubError::TimestampSyntax(_) => "cannot coerce value into timestamp",
            SubError::TimespanRange(_) => "timespan end must come after the start",
            SubError::SubtitleParse(_) => "malformed subtitle record",
            SubError::PositionOverrideConflict(_) => "cannot override a hard coded subtitle position",
        }
    }
}

} // verus!
