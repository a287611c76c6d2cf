//! The idle detector: decides, on each check, whether to tell the user that
//! the timer kept running while they were away.
//!
//! Whoever runs the checks (every thirty seconds) keeps the returned state,
//! shows the popup and sends the event when a check asks for it.

use vstd::prelude::*;
use crate::model::IdleDetected;

verus! {

/// The result of one check: the idle start last reported, and the report to
/// make now, if any.
#[derive(Debug, Clone, Copy, PartialEq, Eq, Structural)]
pub struct IdleStep {
    pub last_fired: Option<i64>,
    pub detected: Option<IdleDetected>,
}

/// Two idle starts less than a minute apart belong to the same idle period.
pub open spec fn same_idle_period(a: int, b: int) -> bool {
    -60_000 < a - b < 60_000
}

/// What a check decides, in terms of unbounded integers: nothing to report
/// while the timer is stopped or the user has been idle less than the
/// threshold (and the last report is forgotten); otherwise the idle period
/// started `idle_ms` before now, and it is reported unless it is the one
/// reported last.
pub open spec fn idle_decision(
    last_fired: Option<i64>,
    is_running: bool,
    idle_ms: u64,
    threshold_ms: u64,
    now_ms: i64,
) -> (Option<int>, Option<int>) {
    if !is_running || idle_ms < threshold_ms {
        (None, None)
    } else {
        let since = now_ms - (idle_ms as i64);
        match last_fired {
            Some(prev) => if same_idle_period(since, prev as int) {
                (Some(prev as int), None)
            } else {
                (Some(since), Some(since))
            },
            None => (Some(since), Some(since)),
        }
    }
}

/// The check's arithmetic stays within `i64`: the idle start, and its
/// distance to the last report and the distance's absolute value.
pub open spec fn idle_computable(
    last_fired: Option<i64>,
    is_running: bool,
    idle_ms: u64,
    threshold_ms: u64,
    now_ms: i64,
) -> bool {
    !is_running || idle_ms < threshold_ms || {
        let since = now_ms - (idle_ms as i64);
        &&& i64::MIN <= since <= i64::MAX
        &&& match last_fired {
            Some(prev) => i64::MIN < since - prev <= i64::MAX,
            None => true,
        }
    }
}

/// One check of the idle detector, given the last reported idle start, whether
/// the timer runs, the user's idle time, the threshold and the time now.
/// `None` where the arithmetic overflows.
pub fn idle_check(
    last_fired: Option<i64>,
    is_running: bool,
    idle_ms: u64,
    threshold_ms: u64,
    now_ms: i64,
) -> (r: Option<IdleStep>)
    ensures
        r is Some <==> idle_computable(last_fired, is_running, idle_ms, threshold_ms, now_ms),
        r matches Some(step) ==> {
            let (last, fire) = idle_decision(last_fired, is_running, idle_ms, threshold_ms, now_ms);
            &&& (step.last_fired matches Some(v) ==> last == Some(v as int))
            &&& (step.last_fired is None ==> last is None)
            &&& (step.detected matches Some(d) ==> fire == Some(d.idle_since_ms as int))
            &&& (step.detected is None ==> fire is None)
        },
{
    if !is_running || idle_ms < threshold_ms {
        return Some(IdleStep { last_fired: None, detected: None });
    }
    let idle = idle_ms as i64;
    let since = match now_ms.checked_sub(idle) {
        Some(v) => v,
        None => {
            return None;
        },
    };
    let already_sent = match last_fired {
        Some(prev) => {
            let d = match since.checked_sub(prev) {
                Some(d) => d,
                None => {
                    return None;
                },
            };
            if d == i64::MIN {
                return None;
            }
            let a = if d < 0 { -d } else { d };
            a < 60_000
        },
        None => false,
    };
    if already_sent {
        return Some(IdleStep { last_fired, detected: None });
    }
    Some(IdleStep { last_fired: Some(since), detected: Some(IdleDetected { idle_since_ms: since }) })
}

/// Milliseconds since the last keyboard or mouse input, from the system's
/// tick counter (milliseconds, wrapping every 2^32): the ticks from the last
/// input to now, counted across a wrap of the counter; 0 where the time of
/// the last input could not be read.
pub fn idle_ms_from_ticks(last_input_tick: Option<u32>, now_tick: u32) -> (r: u64)
    ensures
        r == match last_input_tick {
            None => 0,
            Some(t) => if now_tick >= t { now_tick - t } else { now_tick - t + 0x1_0000_0000 },
        },
{
    match last_input_tick {
        None => 0,
        Some(t) => now_tick.wrapping_sub(t) as u64,
    }
}

} // verus!
