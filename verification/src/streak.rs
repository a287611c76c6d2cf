//! The streak: how many days, counted back from the last day of a list, met
//! their goal.
//!
//! A day meets its goal when a goal is in force on it (the latest one set on
//! or before its key) and the closed intervals of the table spend at least
//! that long in it. The count walks the days from the last one back; a day
//! without a goal, or short of it, ends the streak.

use vstd::prelude::*;
use crate::day_key::{day_le, day_le_exec, lemma_day_le_reflexive, lemma_day_le_total, lemma_day_le_transitive};
use crate::goals::{goal_on, in_force, lemma_goal_in_force, lemma_no_goal_in_force};
use crate::model::Interval;
use crate::store::TrackerDb;
use crate::totals::{range_total_computable, tracked_ms, try_time_range_total};

verus! {

/// The day had a goal and the closed intervals of the table spent at least that long in it.
pub open spec fn meets_goal(rows: Seq<Interval>, goals: Seq<(Seq<char>, i64)>, day: (String, i64, i64)) -> bool {
    goal_on(goals, day.0@) != 0 && tracked_ms(rows, day.1, day.2) >= goal_on(goals, day.0@)
}

/// The number of days, counted back from day `m - 1`, that met their goal.
pub open spec fn days_meeting_goal(
    rows: Seq<Interval>,
    goals: Seq<(Seq<char>, i64)>,
    days: Seq<(String, i64, i64)>,
    m: int,
) -> nat
    decreases m,
{
    if m <= 0 {
        0
    } else if meets_goal(rows, goals, days[m - 1]) {
        1 + days_meeting_goal(rows, goals, days, m - 1)
    } else {
        0
    }
}

/// Every day after `k` met its goal, so the count reaches day `k`.
pub open spec fn reached(
    rows: Seq<Interval>,
    goals: Seq<(Seq<char>, i64)>,
    days: Seq<(String, i64, i64)>,
    k: int,
) -> bool {
    forall|j: int| k < j < days.len() ==> #[trigger] meets_goal(rows, goals, days[j])
}

/// The streak can be counted: the total of every day that the count reaches
/// with a goal fits in an `i64` (see `range_total_computable`), and the
/// count fits in a `u32`.
pub open spec fn streak_countable(
    rows: Seq<Interval>,
    goals: Seq<(Seq<char>, i64)>,
    days: Seq<(String, i64, i64)>,
) -> bool {
    &&& forall|k: int|
        0 <= k < days.len() && reached(rows, goals, days, k) && goal_on(goals, (#[trigger] days[k]).0@) != 0
            ==> range_total_computable(rows, days[k].1, days[k].2)
    &&& days_meeting_goal(rows, goals, days, days.len() as int) <= u32::MAX
}

/// Days `k..m` all met their goal: the count back from `m - 1` is at least `m - k`.
pub proof fn lemma_days_meeting_goal_at_least(
    rows: Seq<Interval>,
    goals: Seq<(Seq<char>, i64)>,
    days: Seq<(String, i64, i64)>,
    k: int,
    m: int,
)
    requires
        0 <= k <= m <= days.len(),
        forall|j: int| k <= j < m ==> #[trigger] meets_goal(rows, goals, days[j]),
    ensures
        days_meeting_goal(rows, goals, days, m) >= m - k,
    decreases m - k,
{
    if m > k {
        lemma_days_meeting_goal_at_least(rows, goals, days, k, m - 1);
        assert(meets_goal(rows, goals, days[m - 1]));
    }
}

/// Days `k..m` all met their goal and day `k - 1` (if any) did not: the count is `m - k`.
pub proof fn lemma_days_meeting_goal(
    rows: Seq<Interval>,
    goals: Seq<(Seq<char>, i64)>,
    days: Seq<(String, i64, i64)>,
    k: int,
    m: int,
)
    requires
        0 <= k <= m <= days.len(),
        forall|j: int| k <= j < m ==> #[trigger] meets_goal(rows, goals, days[j]),
        k == 0 || !meets_goal(rows, goals, days[k - 1]),
    ensures
        days_meeting_goal(rows, goals, days, m) == m - k,
    decreases m - k,
{
    if m > k {
        lemma_days_meeting_goal(rows, goals, days, k, m - 1);
        assert(meets_goal(rows, goals, days[m - 1]));
    }
}

/// The goal in force on the day `key`.
fn goal_on_day(db: &TrackerDb, key: &str) -> (r: i64)
    requires
        db.wf(),
    ensures
        r == goal_on(db.goals(), key@),
{
    let ghost v = db.goals();
    let goals = db.goal_list();
    let n = goals.len();
    let mut best: Option<usize> = None;
    let mut i: usize = 0;
    proof {
        assert(goals@.len() == v.len());
    }
    while i < n
        invariant
            i <= n,
            n == v.len(),
            v == db.goals(),
            goals@ == db.goal_rows(),
            v == crate::store::goal_view(goals@),
            best matches Some(b) ==> b < i && day_le(v[b as int].0, key@),
            best matches Some(b) ==> forall|j: int| 0 <= j < i && day_le(#[trigger] v[j].0, key@) ==> day_le(v[j].0, v[b as int].0),
            best is None ==> forall|j: int| 0 <= j < i ==> !day_le(#[trigger] v[j].0, key@),
        decreases n - i,
    {
        proof {
            assert(v[i as int].0 == goals@[i as int].day@);
        }
        if day_le_exec(goals[i].day.as_str(), key) {
            let take = match best {
                None => true,
                Some(b) => day_le_exec(goals[b].day.as_str(), goals[i].day.as_str()),
            };
            proof {
                lemma_day_le_reflexive(v[i as int].0);
                if let Some(b) = best {
                    assert(v[b as int].0 == goals@[b as int].day@);
                    if take {
                        assert forall|j: int| 0 <= j < i + 1 && day_le(#[trigger] v[j].0, key@)
                            implies day_le(v[j].0, v[i as int].0) by {
                            if j < i {
                                lemma_day_le_transitive(v[j].0, v[b as int].0, v[i as int].0);
                            }
                        }
                    } else {
                        lemma_day_le_total(v[b as int].0, v[i as int].0);
                    }
                }
            }
            if take {
                best = Some(i);
            }
        }
        i += 1;
    }
    match best {
        Some(b) => {
            proof {
                assert(in_force(v, key@, key@, b as int));
                lemma_goal_in_force(v, key@, key@, b as int);
                assert(v[b as int].1 == goals@[b as int].goal_ms);
            }
            goals[b].goal_ms
        },
        None => {
            proof {
                lemma_no_goal_in_force(v, key@, key@);
            }
            0
        },
    }
}

/// The streak of `days` (key, start, end): the number of days, counted back
/// from the last one, that had a goal and met it; `None` where the count
/// cannot be made (`streak_countable` fails).
pub fn try_streak(db: &TrackerDb, days: &[(String, i64, i64)]) -> (r: Option<u32>)
    requires
        db.wf(),
    ensures
        r is Some <==> streak_countable(db.rows(), db.goals(), days@),
        r matches Some(s) ==> s == days_meeting_goal(db.rows(), db.goals(), days@, days@.len() as int),
{
    let n = days.len();
    let ghost rows = db.rows();
    let ghost table = db.goals();
    let ghost dv = days@;
    let mut streak: u32 = 0;
    let mut k: usize = n;
    while k > 0
        invariant_except_break
            k <= n,
            n == dv.len(),
            dv == days@,
            rows == db.rows(),
            table == db.goals(),
            db.wf(),
            forall|j: int| k <= j < n ==> #[trigger] meets_goal(rows, table, dv[j]),
            forall|j: int| k <= j < n ==> range_total_computable(rows, (#[trigger] dv[j]).1, dv[j].2),
            streak == n - k,
            k == 0 ==> streak == days_meeting_goal(rows, table, dv, n as int) && streak_countable(rows, table, dv),
        ensures
            streak == days_meeting_goal(rows, table, dv, n as int),
            streak_countable(rows, table, dv),
        decreases k,
    {
        let idx = k - 1;
        let goal_ms = goal_on_day(db, days[idx].0.as_str());
        if goal_ms == 0 {
            proof {
                lemma_days_meeting_goal(rows, table, dv, k as int, n as int);
                assert forall|q: int| 0 <= q < n && reached(rows, table, dv, q) && goal_on(table, (#[trigger] dv[q]).0@) != 0
                    implies range_total_computable(rows, dv[q].1, dv[q].2) by {
                    if q < idx {
                        assert(!meets_goal(rows, table, dv[idx as int]));
                    }
                }
            }
            break;
        }
        proof {
            assert(reached(rows, table, dv, idx as int));
        }
        let total = match try_time_range_total(db, days[idx].1, days[idx].2) {
            Some(t) => t.total_ms,
            None => {
                return None;
            },
        };
        if total < goal_ms {
            proof {
                lemma_days_meeting_goal(rows, table, dv, k as int, n as int);
                assert forall|q: int| 0 <= q < n && reached(rows, table, dv, q) && goal_on(table, (#[trigger] dv[q]).0@) != 0
                    implies range_total_computable(rows, dv[q].1, dv[q].2) by {
                    if q < idx {
                        assert(!meets_goal(rows, table, dv[idx as int]));
                    }
                }
            }
            break;
        }
        streak = match streak.checked_add(1) {
            Some(s) => s,
            None => {
                proof {
                    assert(meets_goal(rows, table, dv[idx as int]));
                    lemma_days_meeting_goal_at_least(rows, table, dv, idx as int, n as int);
                }
                return None;
            },
        };
        proof {
            assert(meets_goal(rows, table, dv[idx as int]));
            if idx == 0 {
                lemma_days_meeting_goal(rows, table, dv, 0, n as int);
                assert forall|q: int| 0 <= q < n && reached(rows, table, dv, q) && goal_on(table, (#[trigger] dv[q]).0@) != 0
                    implies range_total_computable(rows, dv[q].1, dv[q].2) by {}
            }
        }
        k -= 1;
    }
    proof {
        if n == 0 {
            assert(days_meeting_goal(rows, table, dv, 0) == 0);
        }
    }
    Some(streak)
}

/// The streak of `days` (key, start, end): the number of days, counted back
/// from the last one, that had a goal (the latest one set on or before the
/// day) and whose closed intervals spent at least that long in the day.
pub fn get_streak(db: &TrackerDb, days: &[(String, i64, i64)]) -> (r: u32)
    requires
        db.wf(),
        streak_countable(db.rows(), db.goals(), days@),
    ensures
        r == days_meeting_goal(db.rows(), db.goals(), days@, days@.len() as int),
{
    match try_streak(db, days) {
        Some(s) => s,
        None => 0,
    }
}

} // verus!
