//! The stopwatch text of the tray: elapsed time as `MM:SS` or `HH:MM:SS`.

use vstd::prelude::*;
use crate::model::TimerState;
use vstd::string::StringExecFns;

verus! {

broadcast use vstd::string::group_string_axioms;

/// The decimal digit `d` (0 to 9).
pub open spec fn digit_char(d: nat) -> char {
    if d == 0 { '0' } else if d == 1 { '1' } else if d == 2 { '2' } else if d == 3 { '3' }
    else if d == 4 { '4' } else if d == 5 { '5' } else if d == 6 { '6' } else if d == 7 { '7' }
    else if d == 8 { '8' } else { '9' }
}

/// The decimal text of `n`, without leading zeros.
pub open spec fn decimal(n: nat) -> Seq<char>
    decreases n,
{
    if n < 10 { seq![digit_char(n)] } else { decimal(n / 10).push(digit_char(n % 10)) }
}

/// The decimal text of `n`, padded to at least two digits with a leading zero.
pub open spec fn two_digits(n: nat) -> Seq<char> {
    if n < 10 { seq!['0', digit_char(n)] } else { decimal(n) }
}

/// The whole seconds in `ms` milliseconds, 0 for a negative duration.
pub open spec fn whole_seconds(ms: i64) -> nat {
    if ms >= 0 { (ms / 1000) as nat } else { 0 }
}

/// `HH:MM:SS` when the duration reaches an hour, else `MM:SS`; hours are not
/// capped at two digits.
pub open spec fn hms_text(ms: i64) -> Seq<char> {
    let total = whole_seconds(ms);
    let h = total / 3600;
    let m = (total / 60) % 60;
    let s = total % 60;
    if h > 0 {
        two_digits(h) + seq![':'] + two_digits(m) + seq![':'] + two_digits(s)
    } else {
        two_digits(m) + seq![':'] + two_digits(s)
    }
}

fn digit_str(d: u64) -> (r: &'static str)
    requires
        d < 10,
    ensures
        r@ == seq![digit_char(d as nat)],
{
    proof {
        reveal_strlit("0");
        reveal_strlit("1");
        reveal_strlit("2");
        reveal_strlit("3");
        reveal_strlit("4");
        reveal_strlit("5");
        reveal_strlit("6");
        reveal_strlit("7");
        reveal_strlit("8");
        reveal_strlit("9");
    }
    if d == 0 { "0" } else if d == 1 { "1" } else if d == 2 { "2" } else if d == 3 { "3" }
    else if d == 4 { "4" } else if d == 5 { "5" } else if d == 6 { "6" } else if d == 7 { "7" }
    else if d == 8 { "8" } else { "9" }
}

fn push_decimal(out: &mut String, n: u64)
    ensures
        final(out)@ == old(out)@ + decimal(n as nat),
    decreases n,
{
    if n >= 10 {
        push_decimal(out, n / 10);
    }
    out.append(digit_str(n % 10));
    proof {
        if n >= 10 {
            assert(old(out)@ + decimal((n / 10) as nat) + seq![digit_char((n % 10) as nat)] =~= old(out)@ + decimal(n as nat));
        } else {
            assert(decimal(n as nat) == seq![digit_char(n as nat)]);
        }
    }
}

fn push_two_digits(out: &mut String, n: u64)
    ensures
        final(out)@ == old(out)@ + two_digits(n as nat),
{
    if n < 10 {
        out.append("0");
        proof {
            reveal_strlit("0");
        }
    }
    push_decimal(out, n);
    proof {
        if n < 10 {
            assert(decimal(n as nat) == seq![digit_char(n as nat)]);
            assert(seq!['0'] + seq![digit_char(n as nat)] =~= two_digits(n as nat));
        }
    }
}

/// The elapsed time `ms` as the tray shows it: `HH:MM:SS` from an hour on,
/// else `MM:SS`, each part padded to two digits; a negative duration shows as
/// `00:00`.
pub fn format_hms(ms: i64) -> (r: String)
    ensures
        r@ == hms_text(ms),
{
    let total: i64 = if ms >= 0 { ms / 1000 } else { 0 };
    let total = total as u64;
    let h = total / 3600;
    let m = (total / 60) % 60;
    let s = total % 60;
    let mut out = String::new();
    proof {
        reveal_strlit(":");
    }
    if h > 0 {
        push_two_digits(&mut out, h);
        out.append(":");
    }
    push_two_digits(&mut out, m);
    out.append(":");
    push_two_digits(&mut out, s);
    proof {
        assert(total as nat == whole_seconds(ms));
        if h > 0 {
            assert(out@ =~= hms_text(ms));
        } else {
            assert(out@ =~= hms_text(ms));
        }
    }
    out
}

/// The tray's tooltip for a timer: running with the time elapsed since its
/// start, paused with the last duration, or paused with nothing recorded.
pub open spec fn tooltip_text(timer: TimerState, now_ms: i64) -> Seq<char> {
    match timer {
        TimerState::Running { start_ms } => "Running \u{2014} "@ + hms_text((now_ms - start_ms) as i64),
        TimerState::Paused { last_duration_ms } => "Paused \u{2014} last "@ + hms_text(last_duration_ms),
        TimerState::Empty => "Paused"@,
    }
}

/// The elapsed time of a running timer fits in an `i64`.
pub open spec fn elapsed_fits(timer: TimerState, now_ms: i64) -> bool {
    match timer {
        TimerState::Running { start_ms } => i64::MIN <= now_ms - start_ms <= i64::MAX,
        _ => true,
    }
}

/// The tray's tooltip for `timer` at `now_ms`.
pub fn tray_tooltip(timer: TimerState, now_ms: i64) -> (r: String)
    requires
        elapsed_fits(timer, now_ms),
    ensures
        r@ == tooltip_text(timer, now_ms),
{
    match timer {
        TimerState::Running { start_ms } => {
            let mut t = String::from_str("Running \u{2014} ");
            t.append(format_hms(now_ms - start_ms).as_str());
            t
        },
        TimerState::Paused { last_duration_ms } => {
            let mut t = String::from_str("Paused \u{2014} last ");
            t.append(format_hms(last_duration_ms).as_str());
            t
        },
        TimerState::Empty => String::from_str("Paused"),
    }
}

/// The tray's title (shown beside the icon where the platform has one): the
/// elapsed time while running, nothing otherwise.
pub fn tray_title(timer: TimerState, now_ms: i64) -> (r: Option<String>)
    requires
        elapsed_fits(timer, now_ms),
    ensures
        match timer {
            TimerState::Running { start_ms } => r matches Some(t) && t@ == hms_text((now_ms - start_ms) as i64),
            _ => r is None,
        },
{
    match timer {
        TimerState::Running { start_ms } => Some(format_hms(now_ms - start_ms)),
        _ => None,
    }
}

/// The label of the tray's start/stop item.
pub fn toggle_label(running: bool) -> (r: String)
    ensures
        r@ == (if running { "Stop"@ } else { "Start"@ }),
{
    if running { String::from_str("Stop") } else { String::from_str("Start") }
}

} // verus!
