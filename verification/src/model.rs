//! The values that the tracker stores, computes and reports.

use vstd::prelude::*;
use vstd::string::StringExecFns;

verus! {

/// One stretch of tracked time, in unix milliseconds.
/// An interval without an end is still running.
#[derive(Debug, Clone, Copy, PartialEq, Eq, Structural)]
pub struct Interval {
    pub id: i64,
    pub start_ms: i64,
    pub end_ms: Option<i64>,
}

impl Interval {
    /// Whether the interval is still running (has no end yet).
    pub fn is_running(&self) -> (r: bool)
        ensures
            r == (self.end_ms is None),
    {
        self.end_ms.is_none()
    }
}

/// What the stopwatch shows.
#[derive(Debug, Clone, Copy, PartialEq, Eq, Structural)]
pub enum TimerState {
    /// No interval was ever recorded.
    Empty,
    /// The most recent interval is running since `start_ms`.
    Running { start_ms: i64 },
    /// The most recent interval is closed and lasted `last_duration_ms`.
    Paused { last_duration_ms: i64 },
}

/// The goal set for a day (`day` is a `YYYY-MM-DD` key).
#[derive(Debug, Clone, PartialEq, Eq)]
pub struct DailyGoal {
    pub day: String,
    pub goal_ms: i64,
}

/// The tracked total of one day.
#[derive(Debug, Clone, PartialEq, Eq)]
pub struct DailyTotal {
    pub day: String,
    pub total_ms: i64,
}

/// The tracked total of a time range, and the interval in it that started last.
#[derive(Debug, Clone, Copy, PartialEq, Eq, Structural)]
pub struct RangeTotal {
    pub total_ms: i64,
    pub most_recent: Option<Interval>,
}

/// Why a change to the interval table was refused.
#[derive(Debug, Clone, Copy, PartialEq, Eq, Structural)]
pub enum DbError {
    AlreadyRunning,
    NoneRunning,
    NotFound,
}

impl DbError {
    /// The text that describes the refusal.
    pub fn message(&self) -> (r: String)
        ensures
            r@ == match self {
                DbError::AlreadyRunning => "an interval is already running"@,
                DbError::NoneRunning => "no interval is running"@,
                DbError::NotFound => "interval not found"@,
            },
    {
        match self {
            DbError::AlreadyRunning => String::from_str("an interval is already running"),
            DbError::NoneRunning => String::from_str("no interval is running"),
            DbError::NotFound => String::from_str("interval not found"),
        }
    }
}

/// The error a command reports: a message.
#[derive(Debug, Clone, PartialEq, Eq)]
pub struct CmdError(pub String);

impl From<String> for CmdError {
    fn from(s: String) -> (r: CmdError) {
        CmdError(s)
    }
}

impl vstd::std_specs::convert::FromSpecImpl<String> for CmdError {
    open spec fn obeys_from_spec() -> bool {
        true
    }

    open spec fn from_spec(v: String) -> CmdError {
        CmdError(v)
    }
}

/// Tells the window that the interval table changed.
#[derive(Debug, Clone, Copy, PartialEq, Eq, Structural)]
pub struct IntervalChanged {}

/// Asks the popup window to show a title and a message.
#[derive(Debug, Clone, PartialEq, Eq)]
pub struct PopupShow {
    pub title: String,
    pub message: String,
}

/// Tells the window that the user has been idle since `idle_since_ms`.
#[derive(Debug, Clone, Copy, PartialEq, Eq, Structural)]
pub struct IdleDetected {
    pub idle_since_ms: i64,
}

} // verus!
