//! What holds of the tracker across its functions.

use vstd::prelude::*;
use crate::day_key::{day_le, lemma_day_le_antisymmetric, lemma_day_le_reflexive, lemma_day_le_transitive};
use crate::idle::{idle_decision, same_idle_period};
use crate::goals::{
    days_distinct, goal_in_force, goal_on, goal_set, has_day, in_force, is_latest_goal, keys_ascending, lemma_goal_in_force,
    running_max,
};
use crate::model::{Interval, TimerState};
use crate::store::TrackerDb;
use crate::streak::days_meeting_goal;
use crate::calendar::{chunk_days, chunks_total, day_text, days_of, joined, near_midnight};
use crate::sums::{fits_i64, lemma_seq_sum_nonneg};
use crate::table::{
    any_running, close_at, has_id, ids_distinct, key_lt, latest, lemma_max_id_bounds, max_id, new_row_id, rows_sorted, timer_of,
};
use crate::totals::{
    lemma_overlap_filter, as_pair, closed_ms, closed_ms_fn, closed_window, closed_window_pred, day_ms, overlap_pred, overlaps, pair_ms_fn,
    report_window, tracked_ms,
};

verus! {

// ---------------------------------------------------------------------------
// The closed window of a report and the tracked time of a day.

/// Where `[ds, de)` lies within `[ws, we)`, the closed intervals overlapping
/// `[ws, we)` spend in it what all closed intervals of the table spend in it.
pub proof fn lemma_window_ms(rows: Seq<Interval>, ws: i64, we: i64, ds: i64, de: i64)
    requires
        ws <= ds,
        de <= we,
    ensures
        day_ms(closed_window(rows, ws, we), ds, de) == tracked_ms(rows, ds, de),
    decreases rows.len(),
{
    let p = closed_window_pred(ws, we);
    let m = |x: Interval| as_pair(x);
    if rows.len() == 0 {
        assert(rows.filter(p).len() == 0) by {
            rows.lemma_filter_len(p);
        }
        assert(closed_window(rows, ws, we).len() == 0);
    } else {
        let d = rows.drop_last();
        let x = rows.last();
        lemma_window_ms(d, ws, we, ds, de);
        assert(rows =~= d.push(x));
        d.lemma_filter_push(x, p);
        d.filter(p).lemma_push_map_commute(m, x);
        let cw = closed_window(rows, ws, we);
        let cd = closed_window(d, ws, we);
        if p(x) {
            assert(cw =~= cd.push(as_pair(x)));
            assert(cw.drop_last() =~= cd);
        } else {
            assert(cw =~= cd);
            assert(closed_ms(x, ds, de) == 0);
        }
        assert(rows.drop_last() =~= d);
    }
}

/// Days listed in order: starts and ends non-decreasing, keys ascending,
/// and each day of positive length.
pub open spec fn days_ascending(days: Seq<(String, i64, i64)>) -> bool {
    &&& forall|i: int, j: int| #![trigger days[i], days[j]] 0 <= i <= j < days.len() ==> days[i].1 <= days[j].1
        && days[i].2 <= days[j].2 && day_le(days[i].0@, days[j].0@)
    &&& forall|i: int| 0 <= i < days.len() ==> #[trigger] days[i].1 < days[i].2
}

// ---------------------------------------------------------------------------
// Goals on ascending keys.

proof fn lemma_goal_within(goals: Seq<(Seq<char>, i64)>, key: Seq<char>, last: Seq<char>)
    requires
        days_distinct(goals),
        day_le(key, last),
    ensures
        goal_in_force(goals, key, last) == goal_on(goals, key),
{
    if exists|i: int| in_force(goals, key, last, i) {
        let i = choose|i: int| in_force(goals, key, last, i);
        assert forall|j: int| 0 <= j < goals.len() && day_le(#[trigger] goals[j].0, key) && day_le(goals[j].0, key)
            implies day_le(goals[j].0, goals[i].0) by {
            lemma_day_le_transitive(goals[j].0, key, last);
        }
        assert(in_force(goals, key, key, i));
        lemma_goal_in_force(goals, key, last, i);
        lemma_goal_in_force(goals, key, key, i);
    } else {
        assert forall|i: int| !in_force(goals, key, key, i) by {
            if in_force(goals, key, key, i) {
                assert forall|j: int| 0 <= j < goals.len() && day_le(#[trigger] goals[j].0, key) && day_le(goals[j].0, last)
                    implies day_le(goals[j].0, goals[i].0) by {}
                lemma_day_le_transitive(goals[i].0, key, last);
                assert(in_force(goals, key, last, i));
            }
        }
    }
}
// ---------------------------------------------------------------------------
// Starting and stopping the timer.

/// Starting the timer at a time no earlier than any recorded start makes the
/// new interval the most recent one, and the timer runs from that time.
pub proof fn law_start_runs_timer(before: &TrackerDb, after: &TrackerDb, p: int, now_ms: i64)
    requires
        before.wf(),
        after.wf(),
        before.rows().len() > 0 ==> max_id(before.rows()) < i64::MAX,
        forall|i: int| 0 <= i < before.rows().len() ==> #[trigger] before.rows()[i].start_ms <= now_ms,
        0 <= p <= before.rows().len(),
        after.rows() == before.rows().insert(
            p,
            Interval { id: new_row_id(before.rows()) as i64, start_ms: now_ms, end_ms: None },
        ),
    ensures
        latest(after.rows()) == Some(Interval { id: new_row_id(before.rows()) as i64, start_ms: now_ms, end_ms: None }),
        timer_of(after.rows()) == (TimerState::Running { start_ms: now_ms }),
{
    let rows = before.rows();
    let row = Interval { id: new_row_id(rows) as i64, start_ms: now_ms, end_ms: None };
    if rows.len() > 0 {
        lemma_max_id_bounds(rows);
    }
    if p < rows.len() {
        assert(after.rows()[p] == row);
        assert(after.rows()[p + 1] == rows[p]);
        assert(key_lt(after.rows()[p], after.rows()[p + 1]));
        assert(rows[p].id <= max_id(rows));
    }
}

/// Stopping the timer closes every running interval; where the most recent
/// one ran since `s`, the timer then shows it lasted `now - s`.
pub proof fn law_stop_pauses_timer(before: Seq<Interval>, now_ms: i64)
    requires
        latest(before) matches Some(x) && x.end_ms is None,
        fits_i64(now_ms - before.last().start_ms),
    ensures
        !any_running(before.map_values(|x: Interval| close_at(x, now_ms))),
        timer_of(before.map_values(|x: Interval| close_at(x, now_ms))) == (TimerState::Paused {
            last_duration_ms: (now_ms - before.last().start_ms) as i64,
        }),
{
    let after = before.map_values(|x: Interval| close_at(x, now_ms));
    assert forall|k: int| 0 <= k < after.len() implies !(#[trigger] after[k].end_ms is None) by {
        assert(after[k] == close_at(before[k], now_ms));
    }
    assert(after.last() == close_at(before.last(), now_ms));
}

// ---------------------------------------------------------------------------
// Reading the table.

/// The intervals of a range come out in chronological order: by start, then by id.
pub proof fn law_intervals_chronological(db: &TrackerDb, from_ms: i64, to_ms: i64)
    requires
        db.wf(),
    ensures
        rows_sorted(db.rows().filter(overlap_pred(from_ms, to_ms))),
        forall|i: int| 0 <= i < db.rows().filter(overlap_pred(from_ms, to_ms)).len()
            ==> overlaps(#[trigger] db.rows().filter(overlap_pred(from_ms, to_ms))[i], from_ms, to_ms),
{
    lemma_filter_sorted(db.rows(), overlap_pred(from_ms, to_ms));
    #[allow(deprecated)]
    db.rows().filter_lemma(overlap_pred(from_ms, to_ms));
}

proof fn lemma_filter_sorted(rows: Seq<Interval>, p: spec_fn(Interval) -> bool)
    requires
        rows_sorted(rows),
    ensures
        rows_sorted(rows.filter(p)),
    decreases rows.len(),
{
    if rows.len() > 0 {
        let d = rows.drop_last();
        let x = rows.last();
        let last = rows.len() - 1;
        assert(rows_sorted(d));
        lemma_filter_sorted(d, p);
        assert(rows =~= d.push(x));
        d.lemma_filter_push(x, p);
        let fd = d.filter(p);
        let fr = rows.filter(p);
        if p(x) {
            assert(fr =~= fd.push(x));
            assert forall|i: int, j: int| 0 <= i < j < fr.len() implies key_lt(#[trigger] fr[i], #[trigger] fr[j]) by {
                if j == fr.len() - 1 {
                    assert(fr[i] == fd[i]);
                    assert(fd.contains(fd[i]));
                    d.lemma_filter_contains_rev(p, fd[i]);
                    let q = choose|q: int| 0 <= q < d.len() && d[q] == fd[i];
                    assert(rows[q] == d[q]);
                    assert(key_lt(rows[q], rows[last]));
                } else {
                    assert(fr[i] == fd[i] && fr[j] == fd[j]);
                }
            }
        } else {
            assert(fr =~= fd);
        }
    }
}

/// The tracked total of a range is the time its closed intervals spend in it;
/// the daily total of a list made of that one day is the same number.
pub proof fn law_one_day_total_is_range_total(db: &TrackerDb, day: (String, i64, i64))
    ensures
        day_ms(report_window(db.rows(), seq![day]), day.1, day.2) == tracked_ms(db.rows(), day.1, day.2),
{
    let days = seq![day];
    assert(days[0] == day && days[days.len() - 1] == day);
    lemma_window_ms(db.rows(), day.1, day.2, day.1, day.2);
}

/// For days listed in order, each day's total is the time all closed
/// intervals of the table spend in that day.
pub proof fn law_daily_totals_are_tracked_time(db: &TrackerDb, days: Seq<(String, i64, i64)>)
    requires
        days.len() > 0,
        days_ascending(days),
    ensures
        forall|k: int| 0 <= k < days.len() ==> #[trigger] day_ms(report_window(db.rows(), days), days[k].1, days[k].2)
            == tracked_ms(db.rows(), days[k].1, days[k].2),
{
    let n = days.len() - 1;
    assert forall|k: int| 0 <= k < days.len() implies #[trigger] day_ms(report_window(db.rows(), days), days[k].1, days[k].2)
        == tracked_ms(db.rows(), days[k].1, days[k].2) by {
        assert(days[0].1 <= days[k].1 && days[k].2 <= days[n].2);
        lemma_window_ms(db.rows(), days[0].1, days[n].2, days[k].1, days[k].2);
    }
}

/// Where `a <= b <= c`, the closed intervals spend in `[a, c)` what they spend
/// in `[a, b)` and in `[b, c)` together.
pub proof fn lemma_tracked_split(rows: Seq<Interval>, a: i64, b: i64, c: i64)
    requires
        a <= b <= c,
    ensures
        tracked_ms(rows, a, c) == tracked_ms(rows, a, b) + tracked_ms(rows, b, c),
    decreases rows.len(),
{
    if rows.len() > 0 {
        lemma_tracked_split(rows.drop_last(), a, b, c);
        let x = rows.last();
        assert(closed_ms(x, a, c) == closed_ms(x, a, b) + closed_ms(x, b, c));
    }
}

/// The days of a list run back to back: none ends before it starts, and each
/// ends where the next starts.
pub open spec fn days_back_to_back(days: Seq<(String, i64, i64)>) -> bool {
    &&& forall|k: int| 0 <= k < days.len() ==> (#[trigger] days[k]).1 <= days[k].2
    &&& forall|k: int| 0 <= k < days.len() - 1 ==> (#[trigger] days[k]).2 == days[k + 1].1
}

/// The sum of the day totals over the first `m` days of a list.
pub open spec fn daily_sum(cw: Seq<(i64, i64)>, days: Seq<(String, i64, i64)>, m: int) -> int
    decreases m,
{
    if m <= 0 {
        0
    } else {
        daily_sum(cw, days, m - 1) + day_ms(cw, days[m - 1].1, days[m - 1].2)
    }
}

proof fn lemma_back_to_back_bounds(days: Seq<(String, i64, i64)>, k: int)
    requires
        days_back_to_back(days),
        0 <= k < days.len(),
    ensures
        days[0].1 <= days[k].1,
        days[k].2 <= days[days.len() - 1].2,
{
    lemma_back_to_back_up(days, k);
    lemma_back_to_back_down(days, k);
}

proof fn lemma_back_to_back_up(days: Seq<(String, i64, i64)>, k: int)
    requires
        days_back_to_back(days),
        0 <= k < days.len(),
    ensures
        days[0].1 <= days[k].1,
    decreases k,
{
    if k > 0 {
        lemma_back_to_back_up(days, k - 1);
        assert(days[k - 1].1 <= days[k - 1].2);
        assert(days[k - 1].2 == days[k].1);
    }
}

proof fn lemma_back_to_back_down(days: Seq<(String, i64, i64)>, k: int)
    requires
        days_back_to_back(days),
        0 <= k < days.len(),
    ensures
        days[k].2 <= days[days.len() - 1].2,
    decreases days.len() - k,
{
    if k < days.len() - 1 {
        lemma_back_to_back_down(days, k + 1);
        assert(days[k + 1].1 <= days[k + 1].2);
        assert(days[k].2 == days[k + 1].1);
    }
}

proof fn lemma_daily_sum(rows: Seq<Interval>, days: Seq<(String, i64, i64)>, m: int)
    requires
        days_back_to_back(days),
        1 <= m <= days.len(),
    ensures
        daily_sum(report_window(rows, days), days, m) == tracked_ms(rows, days[0].1, days[m - 1].2),
    decreases m,
{
    let n = days.len() - 1;
    let cw = report_window(rows, days);
    lemma_back_to_back_bounds(days, m - 1);
    lemma_window_ms(rows, days[0].1, days[n].2, days[m - 1].1, days[m - 1].2);
    if m == 1 {
        assert(daily_sum(cw, days, 0) == 0);
    } else {
        lemma_daily_sum(rows, days, m - 1);
        assert(days[m - 2].2 == days[m - 1].1);
        assert(days[m - 1].1 <= days[m - 1].2);
        lemma_tracked_split(rows, days[0].1, days[m - 1].1, days[m - 1].2);
    }
}

/// Splitting a range into days that run back to back neither loses nor
/// counts twice any closed time: the day totals of the list add up to the
/// tracked total from the first day's start to the last day's end.
pub proof fn law_days_split_range_total(db: &TrackerDb, days: Seq<(String, i64, i64)>)
    requires
        days.len() > 0,
        days_back_to_back(days),
    ensures
        daily_sum(report_window(db.rows(), days), days, days.len() as int)
            == tracked_ms(db.rows(), days[0].1, days[days.len() - 1].2),
{
    lemma_daily_sum(db.rows(), days, days.len() as int);
}

// ---------------------------------------------------------------------------
// Goals.

/// For day keys in increasing order, each day gets the goal of the latest
/// goal set on or before it (0 where none is).
pub proof fn law_applicable_goal_is_latest_set(db: &TrackerDb, keys: Seq<Seq<char>>)
    requires
        db.wf(),
        keys.len() > 0,
        keys_ascending(keys),
    ensures
        forall|i: int| 0 <= i < keys.len() ==> #[trigger] goal_in_force(db.goals(), running_max(keys, i), keys[keys.len() - 1])
            == goal_on(db.goals(), keys[i]),
{
    assert forall|i: int| 0 <= i < keys.len() implies #[trigger] goal_in_force(db.goals(), running_max(keys, i), keys[keys.len() - 1])
        == goal_on(db.goals(), keys[i]) by {
        lemma_running_max_ascending(keys, i);
        assert(day_le(keys[i], keys[keys.len() - 1]));
        lemma_goal_within(db.goals(), keys[i], keys[keys.len() - 1]);
    }
}

proof fn lemma_running_max_ascending(keys: Seq<Seq<char>>, i: int)
    requires
        keys_ascending(keys),
        0 <= i < keys.len(),
    ensures
        running_max(keys, i) == keys[i],
    decreases i,
{
    if i > 0 {
        lemma_running_max_ascending(keys, i - 1);
        assert(day_le(keys[i - 1], keys[i]));
        if day_le(keys[i], keys[i - 1]) {
            lemma_day_le_antisymmetric(keys[i], keys[i - 1]);
        }
    }
}

/// Setting the goal of a day no earlier than any goal's day makes it the current goal.
pub proof fn law_latest_goal_is_current(before: &TrackerDb, after: &TrackerDb, day: Seq<char>, goal_ms: i64)
    requires
        before.wf(),
        forall|i: int| 0 <= i < before.goals().len() ==> day_le(#[trigger] before.goals()[i].0, day),
        after.goals() == goal_set(before.goals(), day, goal_ms),
    ensures
        exists|i: int| is_latest_goal(after.goals(), i) && #[trigger] after.goals()[i] == (day, goal_ms),
        has_day(before.goals(), day) ==> after.goals().len() == before.goals().len(),
{
    let b = before.goals();
    let a = after.goals();
    if has_day(b, day) {
        let k = choose|k: int| 0 <= k < b.len() && #[trigger] b[k].0 == day;
        assert(a[k] == (day, goal_ms));
        assert forall|j: int| 0 <= j < a.len() implies day_le(#[trigger] a[j].0, a[k].0) by {
            if b[j].0 == day {
                lemma_day_le_reflexive(day);
            }
        }
        assert(is_latest_goal(a, k));
    } else {
        let k = b.len() as int;
        assert(a[k] == (day, goal_ms));
        assert forall|j: int| 0 <= j < a.len() implies day_le(#[trigger] a[j].0, a[k].0) by {
            if j < k {
                assert(a[j] == b[j]);
            } else {
                lemma_day_le_reflexive(day);
            }
        }
        assert(is_latest_goal(a, k));
    }
}

/// The closed intervals of a range come out by start, and none of them runs.
pub proof fn law_closed_intervals_by_start(db: &TrackerDb, from_ms: i64, to_ms: i64)
    requires
        db.wf(),
    ensures
        forall|i: int, j: int| #![trigger closed_window(db.rows(), from_ms, to_ms)[i], closed_window(db.rows(), from_ms, to_ms)[j]]
            0 <= i <= j < closed_window(db.rows(), from_ms, to_ms).len()
            ==> closed_window(db.rows(), from_ms, to_ms)[i].0 <= closed_window(db.rows(), from_ms, to_ms)[j].0,
{
    let p = closed_window_pred(from_ms, to_ms);
    lemma_filter_sorted(db.rows(), p);
    let f = db.rows().filter(p);
    let cw = closed_window(db.rows(), from_ms, to_ms);
    assert forall|i: int, j: int| #![trigger cw[i], cw[j]] 0 <= i <= j < cw.len() implies cw[i].0 <= cw[j].0 by {
        assert(cw[i] == as_pair(f[i]) && cw[j] == as_pair(f[j]));
        if i < j {
            assert(key_lt(f[i], f[j]));
        }
    }
}

// ---------------------------------------------------------------------------
// The idle detector.

/// An idle period is reported once: while the timer runs and the user stays
/// idle, a check whose idle start lies within a minute of the one reported
/// last reports nothing and keeps that start.
pub proof fn law_idle_reported_once(prev: i64, idle_ms: u64, threshold_ms: u64, now_ms: i64)
    requires
        idle_ms >= threshold_ms,
        same_idle_period(now_ms - (idle_ms as i64), prev as int),
    ensures
        idle_decision(Some(prev), true, idle_ms, threshold_ms, now_ms) == (Some(prev as int), None::<int>),
{
}

/// A check while the timer is stopped, or while the user is active, reports
/// nothing and forgets the last report; a first idle period is always reported.
pub proof fn law_idle_resets(last: Option<i64>, is_running: bool, idle_ms: u64, threshold_ms: u64, now_ms: i64)
    ensures
        !is_running || idle_ms < threshold_ms ==> idle_decision(last, is_running, idle_ms, threshold_ms, now_ms)
            == (None::<int>, None::<int>),
        is_running && idle_ms >= threshold_ms ==> idle_decision(None, is_running, idle_ms, threshold_ms, now_ms).1
            == Some(now_ms - (idle_ms as i64)),
{
}

// ---------------------------------------------------------------------------
// What a read by key gives back after each change.

/// The row with the given id, if any.
pub open spec fn row_with_id(rows: Seq<Interval>, id: i64) -> Option<Interval> {
    if has_id(rows, id) {
        Some(rows[choose|k: int| 0 <= k < rows.len() && #[trigger] rows[k].id == id])
    } else {
        None
    }
}

/// The goal set for the given day, if any.
pub open spec fn goal_of(goals: Seq<(Seq<char>, i64)>, day: Seq<char>) -> Option<i64> {
    if has_day(goals, day) {
        Some(goals[choose|k: int| 0 <= k < goals.len() && #[trigger] goals[k].0 == day].1)
    } else {
        None
    }
}

proof fn lemma_row_with_id(rows: Seq<Interval>, k: int)
    requires
        ids_distinct(rows),
        0 <= k < rows.len(),
    ensures
        row_with_id(rows, rows[k].id) == Some(rows[k]),
{
    let c = choose|c: int| 0 <= c < rows.len() && #[trigger] rows[c].id == rows[k].id;
    assert(rows[k].id == rows[k].id);
    assert(c == k);
}

proof fn lemma_goal_of(goals: Seq<(Seq<char>, i64)>, k: int)
    requires
        days_distinct(goals),
        0 <= k < goals.len(),
    ensures
        goal_of(goals, goals[k].0) == Some(goals[k].1),
{
    let c = choose|c: int| 0 <= c < goals.len() && #[trigger] goals[c].0 == goals[k].0;
    assert(goals[k].0 == goals[k].0);
    assert(c == k);
}

/// Reads by id see exactly the rows of `after`, where `after` holds the rows
/// of `before` except those with id `gone`, plus possibly `added`.
proof fn lemma_lookup_change(before: Seq<Interval>, after: Seq<Interval>, gone: i64, added: Option<Interval>, j: i64)
    requires
        ids_distinct(before),
        ids_distinct(after),
        forall|i: int| 0 <= i < after.len() ==> (Some(#[trigger] after[i]) == added || (before.contains(after[i]) && after[i].id != gone)),
        forall|i: int| 0 <= i < before.len() && #[trigger] before[i].id != gone ==> after.contains(before[i]),
        added matches Some(x) ==> after.contains(x) && x.id == gone,
    ensures
        row_with_id(after, j) == if j == gone { added } else { row_with_id(before, j) },
{
    if has_id(after, j) {
        let q = choose|q: int| 0 <= q < after.len() && #[trigger] after[q].id == j;
        lemma_row_with_id(after, q);
        if Some(after[q]) == added {
        } else {
            let w = choose|w: int| 0 <= w < before.len() && before[w] == after[q];
            lemma_row_with_id(before, w);
        }
    } else {
        if j == gone {
            if let Some(x) = added {
                let w = choose|w: int| 0 <= w < after.len() && after[w] == x;
                assert(after[w].id == j);
            }
        } else if has_id(before, j) {
            let w = choose|w: int| 0 <= w < before.len() && #[trigger] before[w].id == j;
            let v = choose|v: int| 0 <= v < after.len() && after[v] == before[w];
            assert(after[v].id == j);
        }
    }
}

/// After starting an interval, a read by its id gives it, and every other id
/// reads as before.
pub proof fn law_start_then_read(before: &TrackerDb, after: &TrackerDb, p: int, now_ms: i64, j: i64)
    requires
        before.wf(),
        after.wf(),
        before.rows().len() > 0 ==> max_id(before.rows()) < i64::MAX,
        0 <= p <= before.rows().len(),
        after.rows() == before.rows().insert(
            p,
            Interval { id: new_row_id(before.rows()) as i64, start_ms: now_ms, end_ms: None },
        ),
    ensures
        row_with_id(after.rows(), j) == if j == new_row_id(before.rows()) as i64 {
            Some(Interval { id: new_row_id(before.rows()) as i64, start_ms: now_ms, end_ms: None })
        } else {
            row_with_id(before.rows(), j)
        },
{
    let b = before.rows();
    let a = after.rows();
    let x = Interval { id: new_row_id(b) as i64, start_ms: now_ms, end_ms: None };
    if b.len() > 0 {
        lemma_max_id_bounds(b);
    }
    assert forall|i: int| 0 <= i < a.len() implies (Some(#[trigger] a[i]) == Some(x) || (b.contains(a[i]) && a[i].id != x.id)) by {
        if i < p {
            assert(a[i] == b[i]);
        } else if i > p {
            assert(a[i] == b[i - 1]);
        }
    }
    assert forall|i: int| 0 <= i < b.len() && #[trigger] b[i].id != x.id implies a.contains(b[i]) by {
        if i < p {
            assert(a[i] == b[i]);
        } else {
            assert(a[i + 1] == b[i]);
        }
    }
    assert(a[p] == x);
    lemma_lookup_change(b, a, x.id, Some(x), j);
}

/// After stopping the timer, every id reads as before, closed at the stop
/// time where it was running.
pub proof fn law_stop_then_read(before: &TrackerDb, now_ms: i64, j: i64)
    requires
        before.wf(),
    ensures
        row_with_id(before.rows().map_values(|x: Interval| close_at(x, now_ms)), j) == match row_with_id(before.rows(), j) {
            Some(x) => Some(close_at(x, now_ms)),
            None => None,
        },
{
    let b = before.rows();
    let a = b.map_values(|x: Interval| close_at(x, now_ms));
    assert(ids_distinct(a)) by {
        assert forall|i: int, k: int| 0 <= i < a.len() && 0 <= k < a.len() && i != k implies #[trigger] a[i].id != #[trigger] a[k].id by {
            assert(b[i].id != b[k].id);
        }
    }
    if has_id(b, j) {
        let w = choose|w: int| 0 <= w < b.len() && #[trigger] b[w].id == j;
        lemma_row_with_id(b, w);
        assert(a[w].id == j);
        lemma_row_with_id(a, w);
    } else {
        if has_id(a, j) {
            let w = choose|w: int| 0 <= w < a.len() && #[trigger] a[w].id == j;
            assert(b[w].id == j);
        }
    }
}

/// After an update of interval `id`, a read by `id` gives the new times, and
/// every other id reads as before.
pub proof fn law_update_then_read(
    before: &TrackerDb,
    after: &TrackerDb,
    k: int,
    p: int,
    id: i64,
    start_ms: i64,
    end_ms: Option<i64>,
    j: i64,
)
    requires
        before.wf(),
        after.wf(),
        0 <= k < before.rows().len(),
        before.rows()[k].id == id,
        0 <= p < before.rows().len(),
        after.rows() == before.rows().remove(k).insert(p, Interval { id, start_ms, end_ms }),
    ensures
        row_with_id(after.rows(), j) == if j == id { Some(Interval { id, start_ms, end_ms }) } else { row_with_id(before.rows(), j) },
        after.rows().len() == before.rows().len(),
{
    let b = before.rows();
    let a = after.rows();
    let m = b.remove(k);
    let x = Interval { id, start_ms, end_ms };
    assert forall|i: int| 0 <= i < m.len() implies #[trigger] m[i] == b[if i < k { i } else { i + 1 }] by {}
    assert forall|i: int| 0 <= i < a.len() implies (Some(#[trigger] a[i]) == Some(x) || (b.contains(a[i]) && a[i].id != id)) by {
        if i != p {
            let mi = if i < p { i } else { i - 1 };
            let bi = if mi < k { mi } else { mi + 1 };
            assert(a[i] == m[mi]);
            assert(m[mi] == b[bi]);
            assert(bi != k);
            assert(b[bi].id != b[k].id);
        }
    }
    assert forall|i: int| 0 <= i < b.len() && #[trigger] b[i].id != id implies a.contains(b[i]) by {
        assert(i != k);
        let mi = if i < k { i } else { i - 1 };
        assert(m[mi] == b[i]);
        let ai = if mi < p { mi } else { mi + 1 };
        assert(a[ai] == m[mi]);
    }
    assert(a[p] == x);
    lemma_lookup_change(b, a, id, Some(x), j);
}

/// After deleting interval `id`, a read by `id` finds nothing, and every
/// other id reads as before.
pub proof fn law_delete_then_read(before: &TrackerDb, after: &TrackerDb, k: int, id: i64, j: i64)
    requires
        before.wf(),
        after.wf(),
        0 <= k < before.rows().len(),
        before.rows()[k].id == id,
        after.rows() == before.rows().remove(k),
    ensures
        row_with_id(after.rows(), j) == if j == id { None } else { row_with_id(before.rows(), j) },
{
    let b = before.rows();
    let a = after.rows();
    assert forall|i: int| 0 <= i < a.len() implies (Some(#[trigger] a[i]) == None::<Interval> || (b.contains(a[i]) && a[i].id != id)) by {
        let bi = if i < k { i } else { i + 1 };
        assert(a[i] == b[bi]);
        assert(b[bi].id != b[k].id);
    }
    assert forall|i: int| 0 <= i < b.len() && #[trigger] b[i].id != id implies a.contains(b[i]) by {
        assert(i != k);
        let ai = if i < k { i } else { i - 1 };
        assert(a[ai] == b[i]);
    }
    lemma_lookup_change(b, a, id, None, j);
}

/// After setting the goal of a day, a read of that day gives the new goal,
/// and every other day reads as before.
pub proof fn law_set_goal_then_read(before: &TrackerDb, after: &TrackerDb, day: Seq<char>, goal_ms: i64, d: Seq<char>)
    requires
        before.wf(),
        after.wf(),
        after.goals() == goal_set(before.goals(), day, goal_ms),
    ensures
        goal_of(after.goals(), d) == if d == day { Some(goal_ms) } else { goal_of(before.goals(), d) },
{
    let b = before.goals();
    let a = after.goals();
    if has_day(b, day) {
        assert(a.len() == b.len());
        if has_day(a, d) {
            let q = choose|q: int| 0 <= q < a.len() && #[trigger] a[q].0 == d;
            lemma_goal_of(a, q);
            if b[q].0 == day {
                assert(a[q] == (day, goal_ms));
            } else {
                assert(a[q] == b[q]);
                lemma_goal_of(b, q);
            }
        } else {
            let k = choose|k: int| 0 <= k < b.len() && #[trigger] b[k].0 == day;
            assert(a[k].0 == day);
            if has_day(b, d) {
                let w = choose|w: int| 0 <= w < b.len() && #[trigger] b[w].0 == d;
                if b[w].0 == day {
                    assert(a[w].0 == day);
                } else {
                    assert(a[w] == b[w]);
                }
            }
        }
    } else {
        let n = b.len() as int;
        assert(a[n] == (day, goal_ms));
        if d == day {
            lemma_goal_of(a, n);
        } else if has_day(b, d) {
            let w = choose|w: int| 0 <= w < b.len() && #[trigger] b[w].0 == d;
            assert(a[w] == b[w]);
            lemma_goal_of(a, w);
            lemma_goal_of(b, w);
        } else if has_day(a, d) {
            let q = choose|q: int| 0 <= q < a.len() && #[trigger] a[q].0 == d;
            if q < n {
                assert(a[q] == b[q]);
            }
        }
    }
}

/// Setting the same goal for the same day twice changes nothing the second
/// time: the tables stay as the first call left them.
pub proof fn law_set_goal_twice(
    before: &TrackerDb,
    mid: &TrackerDb,
    after: &TrackerDb,
    day: Seq<char>,
    goal_ms: i64,
)
    requires
        before.wf(),
        mid.rows() == before.rows(),
        mid.goals() == goal_set(before.goals(), day, goal_ms),
        after.rows() == mid.rows(),
        after.goals() == goal_set(mid.goals(), day, goal_ms),
    ensures
        after.rows() == mid.rows(),
        after.goals() == mid.goals(),
{
    let b = before.goals();
    let m = mid.goals();
    let a = after.goals();
    if has_day(b, day) {
        let k = choose|k: int| 0 <= k < b.len() && #[trigger] b[k].0 == day;
        assert(m[k].0 == day);
        assert(has_day(m, day));
        assert forall|j: int| 0 <= j < m.len() && #[trigger] m[j].0 == day implies m[j] == (day, goal_ms) by {
            assert(m[j] == (if b[j].0 == day { (day, goal_ms) } else { b[j] }));
        }
    } else {
        let n = b.len() as int;
        assert(m[n].0 == day);
        assert(has_day(m, day));
        assert forall|j: int| 0 <= j < m.len() && #[trigger] m[j].0 == day implies m[j] == (day, goal_ms) by {
            if j < n {
                assert(m[j] == b[j]);
                assert(b[j].0 == day);
            }
        }
    }
    assert(a =~= m);
}

// ---------------------------------------------------------------------------
// The streak over chunks of days.

/// The count back from day `m - 1` looks at the first `m` days only.
proof fn lemma_days_meeting_goal_prefix(
    rows: Seq<Interval>,
    goals: Seq<(Seq<char>, i64)>,
    s: Seq<(String, i64, i64)>,
    t: Seq<(String, i64, i64)>,
    m: int,
)
    requires
        0 <= m <= s.len(),
        m <= t.len(),
        forall|i: int| 0 <= i < m ==> s[i] == t[i],
    ensures
        days_meeting_goal(rows, goals, s, m) == days_meeting_goal(rows, goals, t, m),
    decreases m,
{
    if m > 0 {
        lemma_days_meeting_goal_prefix(rows, goals, s, t, m - 1);
        assert(s[m - 1] == t[m - 1]);
    }
}

/// Counting back over `p + q`: where the first `k` days of `q` all met
/// their goal, the count goes on into `p`; otherwise it is that of `q`.
proof fn lemma_days_meeting_goal_append(
    rows: Seq<Interval>,
    goals: Seq<(Seq<char>, i64)>,
    p: Seq<(String, i64, i64)>,
    q: Seq<(String, i64, i64)>,
    k: int,
)
    requires
        0 <= k <= q.len(),
    ensures
        days_meeting_goal(rows, goals, p + q, p.len() + k) == if days_meeting_goal(rows, goals, q, k) == k {
            k + days_meeting_goal(rows, goals, p, p.len() as int)
        } else {
            days_meeting_goal(rows, goals, q, k) as int
        },
    decreases k,
{
    if k == 0 {
        lemma_days_meeting_goal_prefix(rows, goals, p + q, p, p.len() as int);
    } else {
        lemma_days_meeting_goal_append(rows, goals, p, q, k - 1);
        assert((p + q)[p.len() + k - 1] == q[k - 1]);
        law_streak_at_most_days(rows, goals, q, k - 1);
    }
}

proof fn lemma_chunks_join(
    rows: Seq<Interval>,
    goals: Seq<(Seq<char>, i64)>,
    cs: Seq<(u32, usize)>,
    ls: Seq<Seq<(String, i64, i64)>>,
    i: int,
)
    requires
        cs.len() == ls.len(),
        0 <= i <= ls.len(),
        forall|j: int| 0 <= j < cs.len() ==> (#[trigger] cs[j]).0 == days_meeting_goal(rows, goals, ls[j], ls[j].len() as int)
            && cs[j].1 == ls[j].len(),
    ensures
        chunks_total(cs, i) == days_meeting_goal(
            rows,
            goals,
            joined(ls.subrange(i, ls.len() as int)),
            joined(ls.subrange(i, ls.len() as int)).len() as int,
        ),
    decreases ls.len() - i,
{
    let n = ls.len() as int;
    let sub = ls.subrange(i, n);
    if i == n {
        assert(sub.len() == 0);
        assert(joined(sub).len() == 0);
    } else {
        lemma_chunks_join(rows, goals, cs, ls, i + 1);
        assert(sub.drop_first() =~= ls.subrange(i + 1, n));
        assert(sub[0] == ls[i]);
        let p = joined(ls.subrange(i + 1, n));
        let q = ls[i];
        assert(joined(sub) == p + q);
        lemma_days_meeting_goal_append(rows, goals, p, q, q.len() as int);
        law_streak_at_most_days(rows, goals, q, q.len() as int);
        assert(cs[i].0 == days_meeting_goal(rows, goals, q, q.len() as int) && cs[i].1 == q.len());
    }
}

/// The streak over chunks is the run of days, back from the newest, that met
/// their goal: where each chunk is counted over its day list (newest chunk
/// first), combining the chunks (`chunks_total`) gives the count back over
/// the lists joined oldest first, whatever midnights the lists hold.
pub proof fn law_chunked_streak_is_trailing_run(
    rows: Seq<Interval>,
    goals: Seq<(Seq<char>, i64)>,
    cs: Seq<(u32, usize)>,
    ls: Seq<Seq<(String, i64, i64)>>,
)
    requires
        cs.len() == ls.len(),
        forall|j: int| 0 <= j < cs.len() ==> (#[trigger] cs[j]).0 == days_meeting_goal(rows, goals, ls[j], ls[j].len() as int)
            && cs[j].1 == ls[j].len(),
    ensures
        chunks_total(cs, 0) == days_meeting_goal(rows, goals, joined(ls), joined(ls).len() as int),
{
    lemma_chunks_join(rows, goals, cs, ls, 0);
    assert(ls.subrange(0, ls.len() as int) =~= ls);
}

proof fn lemma_chunk_days_join(a: int, ls: Seq<Seq<(String, i64, i64)>>, i: int)
    requires
        chunk_days(a, ls),
        0 <= i <= ls.len(),
    ensures
        joined(ls.subrange(i, ls.len() as int)).len() == 31 * (ls.len() - i),
        forall|x: int| 0 <= x < joined(ls.subrange(i, ls.len() as int)).len()
            ==> (#[trigger] joined(ls.subrange(i, ls.len() as int))[x]).0@ == day_text((a - 31 * ls.len() + 1 + x) as i32),
    decreases ls.len() - i,
{
    let n = ls.len() as int;
    let sub = ls.subrange(i, n);
    if i == n {
        assert(sub.len() == 0);
    } else {
        lemma_chunk_days_join(a, ls, i + 1);
        assert(sub.drop_first() =~= ls.subrange(i + 1, n));
        assert(sub[0] == ls[i]);
        let p = joined(ls.subrange(i + 1, n));
        let q = ls[i];
        assert(joined(sub) == p + q);
        assert(days_of(a - 31 * i - 30, a - 31 * i, q));
        assert forall|x: int| 0 <= x < joined(sub).len()
            implies (#[trigger] joined(sub)[x]).0@ == day_text((a - 31 * n + 1 + x) as i32) by {
            if x >= p.len() {
                assert(joined(sub)[x] == q[x - p.len()]);
                assert(q[x - p.len()].0@ == day_text((a - 31 * i - 30 + (x - p.len())) as i32));
            } else {
                assert(joined(sub)[x] == p[x]);
            }
        }
    }
}

/// The chunks of a count as of day `a`, joined oldest first, are the days
/// back from `a`: `31 m` days whose keys run from day `a - 31 m + 1` to day `a`.
pub proof fn law_chunks_are_days_back_from(a: int, ls: Seq<Seq<(String, i64, i64)>>)
    requires
        chunk_days(a, ls),
    ensures
        joined(ls).len() == 31 * ls.len(),
        forall|x: int| 0 <= x < joined(ls).len()
            ==> (#[trigger] joined(ls)[x]).0@ == day_text((a - 31 * ls.len() + 1 + x) as i32),
{
    lemma_chunk_days_join(a, ls, 0);
    assert(ls.subrange(0, ls.len() as int) =~= ls);
}

// ---------------------------------------------------------------------------
// Day windows, the current goal, the intervals of a range.

/// Each entry of a day list from day `f` to day `t` is the window of its own
/// day: entry `k` starts less than a day from the UTC midnight of day `f + k`
/// and ends less than a day from that of day `f + k + 1`, where the next
/// entry starts; so the windows move forward with the days, an entry
/// starting before the entry two days later.
pub proof fn law_day_list_windows(f: int, t: int, l: Seq<(String, i64, i64)>)
    requires
        days_of(f, t, l),
    ensures
        forall|k: int| 0 <= k < l.len() ==> {
            &&& (f + k - 719163) * 86_400_000 - 86_400_000 < (#[trigger] l[k]).1 < (f + k - 719163) * 86_400_000 + 86_400_000
            &&& (f + k + 1 - 719163) * 86_400_000 - 86_400_000 < l[k].2 < (f + k + 1 - 719163) * 86_400_000 + 86_400_000
        },
        forall|k: int| 0 <= k < l.len() - 1 ==> (#[trigger] l[k]).2 == l[k + 1].1,
        forall|k: int| 0 <= k < l.len() - 2 ==> (#[trigger] l[k]).1 < l[k + 2].1,
{
    assert forall|k: int| 0 <= k < l.len() - 2 implies (#[trigger] l[k]).1 < l[k + 2].1 by {
        assert(near_midnight(f + k, l[k].1));
        assert(near_midnight(f + k + 2, l[k + 2].1));
    }
}

/// After the goal of `day` is set, the current goal (a goal of the table
/// dated on or after every goal of it) is dated on or after `day` and after
/// every goal that was set before; where it is dated `day`, it is the goal
/// just set.
pub proof fn law_current_goal_after_set(
    before: &TrackerDb,
    after: &TrackerDb,
    day: Seq<char>,
    goal_ms: i64,
    current: (Seq<char>, i64),
)
    requires
        before.wf(),
        after.goals() == goal_set(before.goals(), day, goal_ms),
        after.goals().contains(current),
        forall|j: int| 0 <= j < after.goals().len() ==> day_le(#[trigger] after.goals()[j].0, current.0),
    ensures
        day_le(day, current.0),
        forall|j: int| 0 <= j < before.goals().len() ==> day_le(#[trigger] before.goals()[j].0, current.0),
        current.0 == day ==> current.1 == goal_ms,
{
    let b = before.goals();
    let a = after.goals();
    let q = choose|q: int| 0 <= q < a.len() && a[q] == current;
    if has_day(b, day) {
        let k = choose|k: int| 0 <= k < b.len() && #[trigger] b[k].0 == day;
        assert(a[k].0 == day);
        assert(day_le(a[k].0, current.0));
        assert forall|j: int| 0 <= j < b.len() implies day_le(#[trigger] b[j].0, current.0) by {
            assert(a[j].0 == b[j].0);
            assert(day_le(a[j].0, current.0));
        }
        if current.0 == day {
            assert(a[q] == (if b[q].0 == day { (day, goal_ms) } else { b[q] }));
        }
    } else {
        let n = b.len() as int;
        assert(a[n] == (day, goal_ms));
        assert(day_le(a[n].0, current.0));
        assert forall|j: int| 0 <= j < b.len() implies day_le(#[trigger] b[j].0, current.0) by {
            assert(a[j] == b[j]);
            assert(day_le(a[j].0, current.0));
        }
        if current.0 == day && q < n {
            assert(a[q] == b[q]);
            assert(b[q].0 == day);
        }
    }
}

/// The intervals listed for `[from, to)` are exactly the rows of the table
/// that start before `to` and, where closed, end after `from`: a running
/// interval that starts at or after `to` is never listed.
pub proof fn law_intervals_of_range(rows: Seq<Interval>, from: i64, to: i64, listed: Seq<Interval>)
    requires
        listed == rows.filter(overlap_pred(from, to)),
    ensures
        forall|i: int| 0 <= i < listed.len() ==> {
            &&& rows.contains(#[trigger] listed[i])
            &&& listed[i].start_ms < to
            &&& (listed[i].end_ms matches Some(e) ==> e > from)
        },
        forall|x: Interval| #[trigger] rows.contains(x) && x.start_ms < to && (x.end_ms matches Some(e) ==> e > from)
            ==> listed.contains(x),
        forall|x: Interval| rows.contains(x) && x.end_ms is None && x.start_ms >= to ==> !(#[trigger] listed.contains(x)),
{
    lemma_overlap_filter(rows, from, to);
    assert forall|x: Interval| rows.contains(x) && x.end_ms is None && x.start_ms >= to implies !(#[trigger] listed.contains(x)) by {
        if listed.contains(x) {
            let i = choose|i: int| 0 <= i < listed.len() && listed[i] == x;
            assert(listed[i].start_ms < to);
        }
    }
}

/// A range within another lists no interval that the wider range does not.
pub proof fn law_intervals_of_narrower_range(rows: Seq<Interval>, from1: i64, to1: i64, from2: i64, to2: i64)
    requires
        from1 <= from2,
        to2 <= to1,
    ensures
        forall|x: Interval| #[trigger] rows.filter(overlap_pred(from2, to2)).contains(x)
            ==> rows.filter(overlap_pred(from1, to1)).contains(x),
{
    lemma_overlap_filter(rows, from1, to1);
    lemma_overlap_filter(rows, from2, to2);
    assert forall|x: Interval| #[trigger] rows.filter(overlap_pred(from2, to2)).contains(x)
        implies rows.filter(overlap_pred(from1, to1)).contains(x) by {
        let f2 = rows.filter(overlap_pred(from2, to2));
        let i = choose|i: int| 0 <= i < f2.len() && f2[i] == x;
        assert(f2[i] == x);
        assert(rows.contains(x));
    }
}

// ---------------------------------------------------------------------------
// Bounds.

/// The streak never counts more days than the list holds.
pub proof fn law_streak_at_most_days(
    rows: Seq<Interval>,
    goals: Seq<(Seq<char>, i64)>,
    days: Seq<(String, i64, i64)>,
    m: int,
)
    requires
        0 <= m,
    ensures
        days_meeting_goal(rows, goals, days, m) <= m,
    decreases m,
{
    if m > 0 {
        law_streak_at_most_days(rows, goals, days, m - 1);
    }
}

/// Tracked time is never negative: not over a range, nor over a day.
pub proof fn law_totals_nonnegative(rows: Seq<Interval>, cw: Seq<(i64, i64)>, ds: i64, de: i64)
    ensures
        tracked_ms(rows, ds, de) >= 0,
        day_ms(cw, ds, de) >= 0,
{
    let f = closed_ms_fn(ds, de);
    assert forall|j: int| 0 <= j < rows.len() implies f(#[trigger] rows[j]) >= 0 by {}
    lemma_seq_sum_nonneg(rows, f);
    let g = pair_ms_fn(ds, de);
    assert forall|j: int| 0 <= j < cw.len() implies g(#[trigger] cw[j]) >= 0 by {}
    lemma_seq_sum_nonneg(cw, g);
}

} // verus!
