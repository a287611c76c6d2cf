//! Verified core of a desktop stopwatch and time tracker.
//!
//! The tracker keeps a table of intervals (a start and an optional end, in unix
//! milliseconds; an interval without an end is running) and a table of daily
//! goals. Everything that is decided or computed about them lives here with a
//! contract: the timer state, starting and stopping, editing, range and daily
//! totals, the goal in force on each day, the streak of days that met their
//! goal, the list of calendar days of a report, the stopwatch text of the tray
//! and the idle detector.

pub mod model;
pub mod calendar;
pub mod commands;
pub mod clock_text;
pub mod daily;
pub mod day_key;
pub mod goals;
pub mod idle;
pub mod laws;
pub mod table;
pub mod store;
pub mod streak;
pub mod sums;
pub mod totals;
