//! The tracker's tables, held as plain values, and the changes made to them.
//!
//! `TrackerDb` holds the interval table, listed by (start, id), and the goal
//! table, one row per day. Whoever persists the tables loads them with
//! `from_rows` and mirrors each change that a function here makes.

use vstd::prelude::*;
use crate::model::{DailyGoal, DbError, Interval, TimerState};
use crate::day_key::{
    text_eq, day_le, day_le_exec, lemma_day_le_reflexive, lemma_day_le_total, lemma_day_le_transitive,
};
use crate::goals::{days_distinct, goal_set, goals_sorted, has_day, is_latest_goal, lemma_insert_contains};
use vstd::string::StringExecFns;
use crate::table::{
    any_running, close_at, has_id, ids_distinct, key_lt, latest, lemma_max_id_bounds, max_id, new_row_id,
    rows_sorted, timer_computable, timer_of,
};

verus! {

/// The two tables of the tracker.
#[derive(Clone, Debug)]
pub struct TrackerDb {
    intervals: Vec<Interval>,
    goals: Vec<DailyGoal>,
}

/// The goal table as (day, goal) pairs.
pub open spec fn goal_view(goals: Seq<DailyGoal>) -> Seq<(Seq<char>, i64)> {
    goals.map_values(|g: DailyGoal| (g.day@, g.goal_ms))
}

impl TrackerDb {
    /// The interval table, listed by (start, id).
    pub closed spec fn rows(&self) -> Seq<Interval> {
        self.intervals@
    }

    /// The goal table.
    pub closed spec fn goal_rows(&self) -> Seq<DailyGoal> {
        self.goals@
    }

    /// The goal table as (day, goal) pairs.
    pub open spec fn goals(&self) -> Seq<(Seq<char>, i64)> {
        goal_view(self.goal_rows())
    }

    /// The tables keep their keys: rows are listed by (start, id), ids and goal days are unique.
    pub open spec fn wf(&self) -> bool {
        &&& rows_sorted(self.rows())
        &&& ids_distinct(self.rows())
        &&& days_distinct(self.goals())
    }

    /// Tables loaded from storage: the intervals listed by (start, id), the
    /// goals in any order. `None` where the listing is out of order or a key
    /// repeats.
    pub fn from_rows(intervals: Vec<Interval>, goals: Vec<DailyGoal>) -> (r: Option<TrackerDb>)
        ensures
            r is Some <==> (rows_sorted(intervals@) && ids_distinct(intervals@) && days_distinct(goal_view(goals@))),
            r matches Some(db) ==> db.wf() && db.rows() == intervals@ && db.goal_rows() == goals@,
    {
        let n = intervals.len();
        let mut i: usize = 0;
        while i < n
            invariant
                i <= n,
                n == intervals@.len(),
                forall|a: int, b: int| 0 <= a < b < i ==> key_lt(#[trigger] intervals@[a], #[trigger] intervals@[b]),
                forall|a: int, b: int| 0 <= a < i && 0 <= b < i && a != b ==> #[trigger] intervals@[a].id != #[trigger] intervals@[b].id,
            decreases n - i,
        {
            let x = intervals[i];
            if i > 0 {
                let y = intervals[i - 1];
                if !(y.start_ms < x.start_ms || (y.start_ms == x.start_ms && y.id < x.id)) {
                    assert(!key_lt(intervals@[i - 1], intervals@[i as int]));
                    return None;
                }
            }
            let mut j: usize = 0;
            while j < i
                invariant
                    j <= i,
                    i < n,
                    n == intervals@.len(),
                    x == intervals@[i as int],
                    forall|b: int| 0 <= b < j ==> #[trigger] intervals@[b].id != x.id,
                decreases i - j,
            {
                if intervals[j].id == x.id {
                    assert(intervals@[j as int].id == intervals@[i as int].id);
                    return None;
                }
                j += 1;
            }
            proof {
                assert forall|a: int, b: int| 0 <= a < b < i + 1 implies key_lt(#[trigger] intervals@[a], #[trigger] intervals@[b]) by {
                    if b == i && a < i - 1 {
                        assert(key_lt(intervals@[a], intervals@[i - 1]));
                    }
                }
            }
            i += 1;
        }
        let m = goals.len();
        let ghost gv = goal_view(goals@);
        let mut i: usize = 0;
        while i < m
            invariant
                i <= m,
                m == goals@.len(),
                gv == goal_view(goals@),
                forall|a: int, b: int| 0 <= a < i && 0 <= b < i && a != b ==> #[trigger] gv[a].0 != #[trigger] gv[b].0,
            decreases m - i,
        {
            let mut j: usize = 0;
            while j < i
                invariant
                    j <= i,
                    i < m,
                    m == goals@.len(),
                    gv == goal_view(goals@),
                    forall|b: int| 0 <= b < j ==> #[trigger] gv[b].0 != gv[i as int].0,
                decreases i - j,
            {
                if text_eq(goals[j].day.as_str(), goals[i].day.as_str()) {
                    assert(gv[j as int].0 == gv[i as int].0);
                    return None;
                }
                j += 1;
            }
            i += 1;
        }
        Some(TrackerDb { intervals, goals })
    }

    /// The interval table, listed by (start, id).
    pub fn intervals(&self) -> (r: &Vec<Interval>)
        ensures
            r@ == self.rows(),
    {
        &self.intervals
    }

    /// The goal table, in the order the goals were first set.
    pub fn goal_list(&self) -> (r: &Vec<DailyGoal>)
        ensures
            r@ == self.goal_rows(),
    {
        &self.goals
    }

    /// Empty tables.
    pub fn new() -> (db: TrackerDb)
        ensures
            db.wf(),
            db.rows() == Seq::<Interval>::empty(),
            db.goals() == Seq::<(Seq<char>, i64)>::empty(),
    {
        let db = TrackerDb { intervals: Vec::new(), goals: Vec::new() };
        assert(db.goals() =~= Seq::<(Seq<char>, i64)>::empty());
        db
    }

}

/// The most recent interval: the one that started last (among equal
/// starts, the one with the greatest id), if there is any.
pub fn get_most_recent_interval(db: &TrackerDb) -> (r: Option<Interval>)
    ensures
        r == latest(db.rows()),
{
    let n = db.intervals.len();
    if n == 0 {
        None
    } else {
        Some(db.intervals[n - 1])
    }
}

/// The timer, or `None` where the duration of the most recent interval
/// does not fit in an `i64`.
pub fn try_timer_state(db: &TrackerDb) -> (r: Option<TimerState>)
    ensures
        r == (if timer_computable(db.rows()) { Some(timer_of(db.rows())) } else { None }),
{
    match get_most_recent_interval(db) {
        None => Some(TimerState::Empty),
        Some(i) => match i.end_ms {
            None => Some(TimerState::Running { start_ms: i.start_ms }),
            Some(e) => match e.checked_sub(i.start_ms) {
                Some(d) => Some(TimerState::Paused { last_duration_ms: d }),
                None => None,
            },
        },
    }
}

/// The timer: empty with no interval, running since the start of the most
/// recent interval if that one is running, else paused with its duration.
pub fn timer_state(db: &TrackerDb) -> (r: TimerState)
    requires
        timer_computable(db.rows()),
    ensures
        r == timer_of(db.rows()),
{
    match try_timer_state(db) {
        Some(t) => t,
        None => TimerState::Empty,
    }
}

/// The id the next new row gets, computed on the table; `None` where the
/// largest id is already `i64::MAX`.
fn next_row_id(db: &TrackerDb) -> (r: Option<i64>)
    ensures
        r is None <==> (db.rows().len() > 0 && max_id(db.rows()) == i64::MAX),
        r matches Some(v) ==> v == new_row_id(db.rows()),
{
    let n = db.intervals.len();
    if n == 0 {
        return Some(1);
    }
    let mut m = db.intervals[0].id;
    let mut i: usize = 1;
    while i < n
        invariant
            1 <= i <= n,
            n == db.intervals@.len(),
            m == max_id(db.intervals@.take(i as int)),
        decreases n - i,
    {
        assert(db.intervals@.take(i as int + 1).drop_last() =~= db.intervals@.take(i as int));
        if db.intervals[i].id > m {
            m = db.intervals[i].id;
        }
        i += 1;
    }
    assert(db.intervals@.take(n as int) =~= db.intervals@);
    if m == i64::MAX {
        None
    } else {
        Some(m + 1)
    }
}

/// The position at which a row starting at `start_ms` with an id larger
/// than all others goes: after every row that started at or before it.
fn position_after(db: &TrackerDb, start_ms: i64) -> (p: usize)
    requires
        db.wf(),
    ensures
        p <= db.rows().len(),
        forall|i: int| 0 <= i < p ==> #[trigger] db.rows()[i].start_ms <= start_ms,
        forall|i: int| p <= i < db.rows().len() ==> #[trigger] db.rows()[i].start_ms > start_ms,
{
    let n = db.intervals.len();
    let mut p: usize = 0;
    while p < n && db.intervals[p].start_ms <= start_ms
        invariant
            p <= n,
            n == db.intervals@.len(),
            forall|i: int| 0 <= i < p ==> #[trigger] db.intervals@[i].start_ms <= start_ms,
        decreases n - p,
    {
        p += 1;
    }
    proof {
        if p < n {
            assert forall|i: int| p <= i < db.rows().len() implies #[trigger] db.rows()[i].start_ms > start_ms by {
                if i > p {
                    assert(key_lt(db.rows()[p as int], db.rows()[i]));
                }
            }
        }
    }
    p
}

/// What starting an interval at `now_ms` does: refused while the timer
/// runs, with the table unchanged; else the table gains a running interval
/// starting at `now_ms` with the next id, at its place in the listing, and
/// the start time is returned.
pub open spec fn begin_outcome(before: Seq<Interval>, after: Seq<Interval>, now_ms: i64, r: Result<i64, DbError>) -> bool {
    if timer_of(before) is Running {
        r == Err::<i64, DbError>(DbError::AlreadyRunning) && after == before
    } else {
        r == Ok::<i64, DbError>(now_ms) && exists|p: int|
            #![trigger before.insert(p, Interval { id: new_row_id(before) as i64, start_ms: now_ms, end_ms: None })]
            0 <= p <= before.len() && after == before.insert(
                p,
                Interval { id: new_row_id(before) as i64, start_ms: now_ms, end_ms: None },
            )
    }
}

/// Starts a new interval at `now_ms`, unless the timer is running. `None`,
/// with the tables unchanged, where the timer does not fit in an `i64` or a
/// new id would pass `i64::MAX`.
pub fn try_begin_interval(db: &mut TrackerDb, now_ms: i64) -> (r: Option<Result<i64, DbError>>)
    requires
        old(db).wf(),
    ensures
        final(db).wf(),
        final(db).goal_rows() == old(db).goal_rows(),
        r is None <==> (!timer_computable(old(db).rows()) || (!(timer_of(old(db).rows()) is Running)
            && old(db).rows().len() > 0 && max_id(old(db).rows()) == i64::MAX)),
        r is None ==> final(db).rows() == old(db).rows(),
        r matches Some(x) ==> begin_outcome(old(db).rows(), final(db).rows(), now_ms, x),
{
    match try_timer_state(db) {
        None => {
            return None;
        },
        Some(TimerState::Running { .. }) => {
            return Some(Err(DbError::AlreadyRunning));
        },
        Some(_) => {},
    }
    let id = match next_row_id(db) {
        None => {
            return None;
        },
        Some(id) => id,
    };
    let p = position_after(db, now_ms);
    let row = Interval { id, start_ms: now_ms, end_ms: None };
    proof {
        let rows = db.rows();
        if rows.len() > 0 {
            lemma_max_id_bounds(rows);
        }
        assert(forall|i: int| 0 <= i < rows.len() ==> #[trigger] rows[i].id < id);
    }
    let ghost before = db.rows();
    db.intervals.insert(p, row);
    proof {
        let after = db.rows();
        assert(after == before.insert(p as int, row));
        assert forall|i: int, j: int| 0 <= i < j < after.len() implies key_lt(#[trigger] after[i], #[trigger] after[j]) by {
            if j < p {
            } else if j == p {
            } else if i < p {
            } else if i == p {
            } else {
                assert(key_lt(before[i - 1], before[j - 1]));
            }
        }
        assert forall|i: int, j: int| 0 <= i < after.len() && 0 <= j < after.len() && i != j
            implies #[trigger] after[i].id != #[trigger] after[j].id by {
            if i != p && j != p {
                let bi = if i < p { i } else { i - 1 };
                let bj = if j < p { j } else { j - 1 };
                assert(after[i] == before[bi] && after[j] == before[bj]);
            }
        }
    }
    Some(Ok(now_ms))
}

/// Starts a new interval at `now_ms`, unless the timer is running (see
/// `begin_outcome`): the new interval gets the next id (one more than the
/// largest, or 1) and its place in the listing.
pub fn begin_interval(db: &mut TrackerDb, now_ms: i64) -> (r: Result<i64, DbError>)
    requires
        old(db).wf(),
        timer_computable(old(db).rows()),
        old(db).rows().len() > 0 ==> max_id(old(db).rows()) < i64::MAX,
    ensures
        final(db).wf(),
        final(db).goal_rows() == old(db).goal_rows(),
        begin_outcome(old(db).rows(), final(db).rows(), now_ms, r),
{
    match try_begin_interval(db, now_ms) {
        Some(r) => r,
        None => Err(DbError::AlreadyRunning),
    }
}

/// Closes every running interval at `now_ms`; refused when none runs.
pub fn end_interval(db: &mut TrackerDb, now_ms: i64) -> (r: Result<(), DbError>)
    requires
        old(db).wf(),
    ensures
        final(db).wf(),
        final(db).goal_rows() == old(db).goal_rows(),
        !any_running(old(db).rows()) ==> r == Err::<(), DbError>(DbError::NoneRunning)
            && final(db).rows() == old(db).rows(),
        any_running(old(db).rows()) ==> r == Ok::<(), DbError>(())
            && final(db).rows() == old(db).rows().map_values(|x: Interval| close_at(x, now_ms)),
{
    let n = db.intervals.len();
    let mut out: Vec<Interval> = Vec::new();
    let mut changed = false;
    let mut i: usize = 0;
    while i < n
        invariant
            i <= n,
            n == db.intervals@.len(),
            out@ =~= db.intervals@.take(i as int).map_values(|x: Interval| close_at(x, now_ms)),
            changed == exists|k: int| 0 <= k < i && #[trigger] db.intervals@[k].end_ms is None,
        decreases n - i,
    {
        let x = db.intervals[i];
        if x.end_ms.is_none() {
            changed = true;
            out.push(Interval { id: x.id, start_ms: x.start_ms, end_ms: Some(now_ms) });
        } else {
            out.push(x);
        }
        i += 1;
    }
    if !changed {
        return Err(DbError::NoneRunning);
    }
    let ghost before = db.rows();
    db.intervals = out;
    proof {
        assert(before.take(n as int) =~= before);
        let after = db.rows();
        assert forall|i: int, j: int| 0 <= i < j < after.len() implies key_lt(#[trigger] after[i], #[trigger] after[j]) by {
            assert(key_lt(before[i], before[j]));
        }
        assert forall|i: int, j: int| 0 <= i < after.len() && 0 <= j < after.len() && i != j
            implies #[trigger] after[i].id != #[trigger] after[j].id by {
            assert(before[i].id != before[j].id);
        }
    }
    Ok(())
}

/// The index of the row with the given id, if any.
fn find_id(db: &TrackerDb, id: i64) -> (r: Option<usize>)
    ensures
        r is None <==> !has_id(db.rows(), id),
        r matches Some(k) ==> k < db.rows().len() && db.rows()[k as int].id == id,
{
    let n = db.intervals.len();
    let mut k: usize = 0;
    while k < n
        invariant
            k <= n,
            n == db.intervals@.len(),
            forall|j: int| 0 <= j < k ==> #[trigger] db.intervals@[j].id != id,
        decreases n - k,
    {
        if db.intervals[k].id == id {
            return Some(k);
        }
        k += 1;
    }
    None
}

/// Sets the start and end of the interval with the given id; refused
/// when there is no such interval. The row moves to its place in the listing.
pub fn update_interval(db: &mut TrackerDb, id: i64, start_ms: i64, end_ms: Option<i64>) -> (r: Result<(), DbError>)
    requires
        old(db).wf(),
    ensures
        final(db).wf(),
        final(db).goal_rows() == old(db).goal_rows(),
        !has_id(old(db).rows(), id) ==> r == Err::<(), DbError>(DbError::NotFound)
            && final(db).rows() == old(db).rows(),
        has_id(old(db).rows(), id) ==> r == Ok::<(), DbError>(()) && exists|k: int, p: int|
            #![trigger old(db).rows().remove(k).insert(p, Interval { id, start_ms, end_ms })]
            0 <= k < old(db).rows().len() && old(db).rows()[k].id == id
            && 0 <= p < old(db).rows().len()
            && final(db).rows() == old(db).rows().remove(k).insert(p, Interval { id, start_ms, end_ms }),
{
    let k = match find_id(db, id) {
        None => return Err(DbError::NotFound),
        Some(k) => k,
    };
    let ghost before = db.rows();
    let _ = db.intervals.remove(k);
    let ghost mid = db.rows();
    let row = Interval { id, start_ms, end_ms };
    proof {
        assert(mid == before.remove(k as int));
        assert forall|i: int| 0 <= i < mid.len() implies #[trigger] mid[i].id != id by {
            let bi = if i < k { i } else { i + 1 };
            assert(mid[i] == before[bi]);
        }
        assert forall|i: int, j: int| 0 <= i < j < mid.len() implies key_lt(#[trigger] mid[i], #[trigger] mid[j]) by {
            let bi = if i < k { i } else { i + 1 };
            let bj = if j < k { j } else { j + 1 };
            assert(mid[i] == before[bi] && mid[j] == before[bj]);
        }
    }
    let n = db.intervals.len();
    let mut p: usize = 0;
    while p < n && (db.intervals[p].start_ms < start_ms
        || (db.intervals[p].start_ms == start_ms && db.intervals[p].id < id))
        invariant
            p <= n,
            n == db.intervals@.len(),
            db.intervals@ == mid,
            row == (Interval { id, start_ms, end_ms }),
            forall|i: int| 0 <= i < p ==> key_lt(#[trigger] mid[i], row),
        decreases n - p,
    {
        p += 1;
    }
    proof {
        if p < n {
            assert(!key_lt(mid[p as int], row));
            assert(mid[p as int].id != id);
            assert forall|i: int| p <= i < mid.len() implies key_lt(row, #[trigger] mid[i]) by {
                if i > p {
                    assert(key_lt(mid[p as int], mid[i]));
                }
                assert(mid[i].id != id);
            }
        }
    }
    db.intervals.insert(p, row);
    proof {
        let after = db.rows();
        assert(after == mid.insert(p as int, row));
        assert(after == before.remove(k as int).insert(p as int, row));
        assert forall|i: int, j: int| 0 <= i < j < after.len() implies key_lt(#[trigger] after[i], #[trigger] after[j]) by {
            if j < p {
            } else if j == p {
            } else if i < p {
            } else if i == p {
            } else {
                assert(key_lt(mid[i - 1], mid[j - 1]));
            }
        }
        assert forall|i: int, j: int| 0 <= i < after.len() && 0 <= j < after.len() && i != j
            implies #[trigger] after[i].id != #[trigger] after[j].id by {
            if i != p && j != p {
                let mi = if i < p { i } else { i - 1 };
                let mj = if j < p { j } else { j - 1 };
                assert(after[i] == mid[mi] && after[j] == mid[mj]);
                let bi = if mi < k { mi } else { mi + 1 };
                let bj = if mj < k { mj } else { mj + 1 };
                assert(mid[mi] == before[bi] && mid[mj] == before[bj]);
            }
        }
    }
    Ok(())
}

/// Deletes the interval with the given id; refused when there is none.
pub fn delete_interval(db: &mut TrackerDb, id: i64) -> (r: Result<(), DbError>)
    requires
        old(db).wf(),
    ensures
        final(db).wf(),
        final(db).goal_rows() == old(db).goal_rows(),
        !has_id(old(db).rows(), id) ==> r == Err::<(), DbError>(DbError::NotFound)
            && final(db).rows() == old(db).rows(),
        has_id(old(db).rows(), id) ==> r == Ok::<(), DbError>(()) && exists|k: int|
            #![trigger old(db).rows().remove(k)]
            0 <= k < old(db).rows().len() && old(db).rows()[k].id == id
            && final(db).rows() == old(db).rows().remove(k),
{
    let k = match find_id(db, id) {
        None => return Err(DbError::NotFound),
        Some(k) => k,
    };
    let ghost before = db.rows();
    let _ = db.intervals.remove(k);
    proof {
        let after = db.rows();
        assert(after == before.remove(k as int));
        assert forall|i: int, j: int| 0 <= i < j < after.len() implies key_lt(#[trigger] after[i], #[trigger] after[j]) by {
            let bi = if i < k { i } else { i + 1 };
            let bj = if j < k { j } else { j + 1 };
            assert(after[i] == before[bi] && after[j] == before[bj]);
        }
        assert forall|i: int, j: int| 0 <= i < after.len() && 0 <= j < after.len() && i != j
            implies #[trigger] after[i].id != #[trigger] after[j].id by {
            let bi = if i < k { i } else { i + 1 };
            let bj = if j < k { j } else { j + 1 };
            assert(after[i] == before[bi] && after[j] == before[bj]);
        }
    }
    Ok(())
}


/// A copy of a goal row.
fn copy_goal(g: &DailyGoal) -> (r: DailyGoal)
    ensures
        r.day@ == g.day@,
        r.goal_ms == g.goal_ms,
{
    DailyGoal { day: g.day.clone(), goal_ms: g.goal_ms }
}

/// Sets the goal of a day: replaces the goal already set for that day, or
/// adds one.
pub fn set_daily_goal(db: &mut TrackerDb, day: &str, goal_ms: i64)
    requires
        old(db).wf(),
    ensures
        final(db).wf(),
        final(db).rows() == old(db).rows(),
        final(db).goals() == goal_set(old(db).goals(), day@, goal_ms),
{
    let ghost before = db.goals();
    let n = db.goals.len();
    let mut k: usize = 0;
    while k < n
        invariant
            k <= n,
            n == db.goals@.len(),
            before == db.goals(),
            before == old(db).goals(),
            db.wf(),
            db.rows() == old(db).rows(),
            forall|j: int| 0 <= j < k ==> #[trigger] before[j].0 != day@,
        decreases n - k,
    {
        if text_eq(db.goals[k].day.as_str(), day) {
            let g = DailyGoal { day: String::from_str(day), goal_ms };
            db.goals.set(k, g);
            proof {
                assert(before[k as int].0 == day@);
                let after = db.goals();
                assert(has_day(before, day@));
                assert(after =~= goal_set(before, day@, goal_ms)) by {
                    assert forall|j: int| 0 <= j < before.len() && j != k implies #[trigger] before[j].0 != day@ by {
                        assert(before[j].0 != before[k as int].0);
                    }
                }
                assert forall|i: int, j: int| 0 <= i < after.len() && 0 <= j < after.len() && i != j
                    implies #[trigger] after[i].0 != #[trigger] after[j].0 by {
                    assert(before[i].0 != before[j].0);
                }
            }
            return;
        }
        k += 1;
    }
    let g = DailyGoal { day: String::from_str(day), goal_ms };
    db.goals.push(g);
    proof {
        assert(!has_day(before, day@));
        assert(db.goals() =~= goal_set(before, day@, goal_ms));
        let after = db.goals();
        assert forall|i: int, j: int| 0 <= i < after.len() && 0 <= j < after.len() && i != j
            implies #[trigger] after[i].0 != #[trigger] after[j].0 by {
            if i < n && j < n {
                assert(after[i] == before[i] && after[j] == before[j]);
            }
        }
    }
}

/// The goal with the latest day, if any goal is set.
pub fn get_current_goal(db: &TrackerDb) -> (r: Option<DailyGoal>)
    ensures
        r is None <==> db.goals().len() == 0,
        r matches Some(g) ==> exists|i: int| is_latest_goal(db.goals(), i) && #[trigger] db.goals()[i] == (g.day@, g.goal_ms),
        r matches Some(g) ==> db.goals().contains((g.day@, g.goal_ms))
            && forall|j: int| 0 <= j < db.goals().len() ==> day_le(#[trigger] db.goals()[j].0, g.day@),
{
    let n = db.goals.len();
    if n == 0 {
        return None;
    }
    let ghost v = db.goals();
    let mut best: usize = 0;
    let mut i: usize = 1;
    proof {
        lemma_day_le_reflexive(v[0].0);
    }
    while i < n
        invariant
            1 <= i <= n,
            best < i,
            n == v.len(),
            v == db.goals(),
            forall|j: int| 0 <= j < i ==> day_le(#[trigger] v[j].0, v[best as int].0),
        decreases n - i,
    {
        if !day_le_exec(db.goals[best].day.as_str(), db.goals[i].day.as_str()) {
        } else {
            proof {
                lemma_day_le_reflexive(v[i as int].0);
                assert forall|j: int| 0 <= j < i + 1 implies day_le(#[trigger] v[j].0, v[i as int].0) by {
                    if j < i {
                        lemma_day_le_transitive(v[j].0, v[best as int].0, v[i as int].0);
                    }
                }
            }
            best = i;
        }
        proof {
            assert forall|j: int| 0 <= j < i + 1 implies day_le(#[trigger] v[j].0, v[best as int].0) by {
                if j == i {
                    lemma_day_le_total(v[j].0, v[best as int].0);
                }
            }
        }
        i += 1;
    }
    let g = copy_goal(&db.goals[best]);
    assert(is_latest_goal(v, best as int));
    assert(v[best as int] == (g.day@, g.goal_ms));
    assert(v.contains((g.day@, g.goal_ms)));
    assert(forall|j: int| 0 <= j < v.len() ==> day_le(#[trigger] v[j].0, g.day@));
    Some(g)
}

/// The goals dated on or before `last_day`, listed by day.
pub fn goals_through(db: &TrackerDb, last_day: &str) -> (r: Vec<DailyGoal>)
    requires
        db.wf(),
    ensures
        goals_sorted(goal_view(r@)),
        forall|x: (Seq<char>, i64)| #[trigger] goal_view(r@).contains(x) <==> (db.goals().contains(x) && day_le(x.0, last_day@)),
{
    let ghost v = db.goals();
    let n = db.goals.len();
    let mut out: Vec<DailyGoal> = Vec::new();
    let mut i: usize = 0;
    while i < n
        invariant
            i <= n,
            n == v.len(),
            v == db.goals(),
            days_distinct(v),
            goals_sorted(goal_view(out@)),
            forall|x: (Seq<char>, i64)| #[trigger] goal_view(out@).contains(x) <==> (v.take(i as int).contains(x) && day_le(x.0, last_day@)),
        decreases n - i,
    {
        let ghost taken = v.take(i as int);
        proof {
            assert(v.take(i as int + 1) =~= taken.push(v[i as int]));
            assert forall|x: (Seq<char>, i64)| #[trigger] v.take(i as int + 1).contains(x) <==> (taken.contains(x) || x == v[i as int]) by {
                lemma_insert_contains(taken, taken.len() as int, v[i as int], x);
                assert(taken.insert(taken.len() as int, v[i as int]) =~= taken.push(v[i as int]));
            }
        }
        if day_le_exec(db.goals[i].day.as_str(), last_day) {
            let g = copy_goal(&db.goals[i]);
            let ghost gv = (g.day@, g.goal_ms);
            let ghost ov = goal_view(out@);
            proof {
                // the new day is not listed yet
                assert forall|j: int| 0 <= j < ov.len() implies #[trigger] ov[j].0 != gv.0 by {
                    assert(ov.contains(ov[j]));
                    let w = choose|w: int| 0 <= w < taken.len() && taken[w] == ov[j];
                    assert(v[w] == taken[w]);
                    assert(v[w].0 != v[i as int].0);
                }
            }
            let m = out.len();
            let mut p: usize = 0;
            while p < m && day_le_exec(out[p].day.as_str(), g.day.as_str())
                invariant
                    p <= m,
                    m == out@.len(),
                    ov == goal_view(out@),
                    gv == (g.day@, g.goal_ms),
                    forall|j: int| 0 <= j < p ==> day_le(#[trigger] ov[j].0, gv.0),
                decreases m - p,
            {
                p += 1;
            }
            proof {
                assert forall|j: int| p <= j < ov.len() implies day_le(gv.0, #[trigger] ov[j].0) by {
                    lemma_day_le_total(ov[p as int].0, gv.0);
                    if j > p {
                        lemma_day_le_transitive(gv.0, ov[p as int].0, ov[j].0);
                    }
                }
            }
            out.insert(p, g);
            proof {
                let nv = goal_view(out@);
                assert(nv =~= ov.insert(p as int, gv));
                assert forall|a: int, b: int| 0 <= a < b < nv.len() implies day_le(#[trigger] nv[a].0, #[trigger] nv[b].0) && nv[a].0 != nv[b].0 by {
                    if b < p {
                    } else if b == p {
                    } else if a < p {
                        lemma_day_le_transitive(ov[a].0, gv.0, ov[b - 1].0);
                    } else if a == p {
                    } else {
                    }
                }
                assert forall|x: (Seq<char>, i64)| #[trigger] nv.contains(x) <==> (v.take(i as int + 1).contains(x) && day_le(x.0, last_day@)) by {
                    lemma_insert_contains(ov, p as int, gv, x);
                }
            }
        } else {
            proof {
                assert forall|x: (Seq<char>, i64)| #[trigger] goal_view(out@).contains(x) <==> (v.take(i as int + 1).contains(x) && day_le(x.0, last_day@)) by {
                }
            }
        }
        i += 1;
    }
    assert(v.take(n as int) =~= v);
    out
}

} // verus!
