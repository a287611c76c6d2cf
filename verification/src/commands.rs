//! The decisions behind the window's and the tray's commands.
//!
//! Each function here changes the tables and says what the caller reports:
//! the caller then mirrors the change to storage and updates the tray.

use vstd::prelude::*;
use crate::model::{CmdError, Interval, TimerState};
use crate::store::{delete_interval, end_interval, try_timer_state, TrackerDb};
use crate::table::{any_running, close_at, has_id, timer_computable, timer_of};
use vstd::string::StringExecFns;

verus! {

fn no_interval_running() -> (r: CmdError)
    ensures
        r.0@ == "no interval running"@,
{
    CmdError(String::from_str("no interval running"))
}

/// Stops the running timer at `end_ms` and gives how long it ran. Refused
/// (with "no interval running") when the timer does not run. `None`, with
/// the tables unchanged, where the timer or the duration does not fit in an
/// `i64`.
pub fn stop_running_interval(db: &mut TrackerDb, end_ms: i64) -> (r: Option<Result<i64, CmdError>>)
    requires
        old(db).wf(),
    ensures
        final(db).wf(),
        final(db).goal_rows() == old(db).goal_rows(),
        r is None <==> (!timer_computable(old(db).rows()) || (match timer_of(old(db).rows()) {
            TimerState::Running { start_ms } => !(i64::MIN <= end_ms - start_ms <= i64::MAX),
            _ => false,
        })),
        r is None ==> final(db).rows() == old(db).rows(),
        r matches Some(Err(e)) ==> e.0@ == "no interval running"@ && final(db).rows() == old(db).rows()
            && !(timer_of(old(db).rows()) is Running),
        r matches Some(Ok(d)) ==> (match timer_of(old(db).rows()) {
            TimerState::Running { start_ms } => d == end_ms - start_ms,
            _ => false,
        }) && final(db).rows() == old(db).rows().map_values(|x: Interval| close_at(x, end_ms)),
{
    let start_ms = match try_timer_state(db) {
        None => {
            return None;
        },
        Some(TimerState::Running { start_ms }) => start_ms,
        Some(_) => {
            return Some(Err(no_interval_running()));
        },
    };
    let duration = match end_ms.checked_sub(start_ms) {
        Some(d) => d,
        None => {
            return None;
        },
    };
    proof {
        let rows = db.rows();
        assert(rows[rows.len() - 1].end_ms is None);
        assert(any_running(rows));
    }
    let _ = end_interval(db, end_ms);
    Some(Ok(duration))
}

/// Deletes the interval with the given id and tells whether that stopped
/// the timer (it ran before and does not after). Refused with the table's
/// "interval not found" when there is no such interval. `None` where the
/// timer before or after does not fit in an `i64`.
pub fn remove_interval(db: &mut TrackerDb, id: i64) -> (r: Option<Result<bool, CmdError>>)
    requires
        old(db).wf(),
    ensures
        final(db).wf(),
        final(db).goal_rows() == old(db).goal_rows(),
        !timer_computable(old(db).rows()) ==> (r is None && final(db).rows() == old(db).rows()),
        timer_computable(old(db).rows()) && !has_id(old(db).rows(), id) ==> (r matches Some(Err(e))
            && e.0@ == "interval not found"@ && final(db).rows() == old(db).rows()),
        timer_computable(old(db).rows()) && has_id(old(db).rows(), id) ==> exists|k: int|
            #![trigger old(db).rows().remove(k)]
            0 <= k < old(db).rows().len() && old(db).rows()[k].id == id
            && final(db).rows() == old(db).rows().remove(k),
        r is None <==> (!timer_computable(old(db).rows())
            || (has_id(old(db).rows(), id) && !timer_computable(final(db).rows()))),
        r matches Some(Err(e)) ==> !has_id(old(db).rows(), id),
        r matches Some(Ok(stopped)) ==> timer_computable(final(db).rows())
            && stopped == (timer_of(old(db).rows()) is Running && !(timer_of(final(db).rows()) is Running)),
{
    let before = match try_timer_state(db) {
        None => {
            return None;
        },
        Some(t) => t,
    };
    match delete_interval(db, id) {
        Err(e) => {
            return Some(Err(CmdError(e.message())));
        },
        Ok(()) => {},
    }
    let after = match try_timer_state(db) {
        None => {
            return None;
        },
        Some(t) => t,
    };
    let was_running = match before {
        TimerState::Running { .. } => true,
        _ => false,
    };
    let runs = match after {
        TimerState::Running { .. } => true,
        _ => false,
    };
    Some(Ok(was_running && !runs))
}

/// What the tray's start/stop item does in a timer state: `true` to start
/// the timer (it is not running), `false` to stop it (it is running).
pub fn toggle_starts(state: &TimerState) -> (r: bool)
    ensures
        r == !(state is Running),
{
    match state {
        TimerState::Running { .. } => false,
        _ => true,
    }
}

} // verus!
