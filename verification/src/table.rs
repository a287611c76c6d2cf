//! The interval table in the abstract: ordering, lookups and the timer.
//!
//! The tracker lists its intervals by start, and among equal starts by id;
//! these spec functions say what that listing is and what is read off it.

use vstd::prelude::*;
use crate::model::{Interval, TimerState};

verus! {

/// The listing order of the interval table: by start, then by id.
pub open spec fn key_lt(a: Interval, b: Interval) -> bool {
    a.start_ms < b.start_ms || (a.start_ms == b.start_ms && a.id < b.id)
}

/// The rows are listed in strictly increasing (start, id) order.
pub open spec fn rows_sorted(rows: Seq<Interval>) -> bool {
    forall|i: int, j: int| 0 <= i < j < rows.len() ==> key_lt(#[trigger] rows[i], #[trigger] rows[j])
}

/// No two rows share an id (the id is the table's primary key).
pub open spec fn ids_distinct(rows: Seq<Interval>) -> bool {
    forall|i: int, j: int|
        0 <= i < rows.len() && 0 <= j < rows.len() && i != j ==> #[trigger] rows[i].id
            != #[trigger] rows[j].id
}

/// Some row has the given id.
pub open spec fn has_id(rows: Seq<Interval>, id: i64) -> bool {
    exists|k: int| 0 <= k < rows.len() && #[trigger] rows[k].id == id
}

/// Some row is still running.
pub open spec fn any_running(rows: Seq<Interval>) -> bool {
    exists|k: int| 0 <= k < rows.len() && #[trigger] rows[k].end_ms is None
}

/// The largest id in a non-empty table.
pub open spec fn max_id(rows: Seq<Interval>) -> int
    decreases rows.len(),
{
    if rows.len() <= 1 {
        if rows.len() == 0 { 0 } else { rows[0].id as int }
    } else {
        let m = max_id(rows.drop_last());
        if rows.last().id > m { rows.last().id as int } else { m }
    }
}

/// The id that a new row gets: one more than the largest id, or 1 in an empty table.
pub open spec fn new_row_id(rows: Seq<Interval>) -> int {
    if rows.len() == 0 { 1 } else { max_id(rows) + 1 }
}

/// A row closed at `now` if it was running, the row itself otherwise.
pub open spec fn close_at(x: Interval, now: i64) -> Interval {
    Interval {
        id: x.id,
        start_ms: x.start_ms,
        end_ms: if x.end_ms is None { Some(now) } else { x.end_ms },
    }
}

/// The most recent interval: the one that started last (among equal starts,
/// the one with the greatest id), or none in an empty table.
pub open spec fn latest(rows: Seq<Interval>) -> Option<Interval> {
    if rows.len() == 0 { None } else { Some(rows.last()) }
}

/// The duration of the most recent interval fits in an `i64` when it is closed.
pub open spec fn timer_computable(rows: Seq<Interval>) -> bool {
    match latest(rows) {
        Some(x) => match x.end_ms {
            Some(e) => i64::MIN <= e - x.start_ms <= i64::MAX,
            None => true,
        },
        None => true,
    }
}

/// The timer shown for a table.
pub open spec fn timer_of(rows: Seq<Interval>) -> TimerState {
    match latest(rows) {
        None => TimerState::Empty,
        Some(x) => match x.end_ms {
            None => TimerState::Running { start_ms: x.start_ms },
            Some(e) => TimerState::Paused { last_duration_ms: (e - x.start_ms) as i64 },
        },
    }
}

pub proof fn lemma_max_id_bounds(rows: Seq<Interval>)
    requires
        rows.len() > 0,
    ensures
        forall|i: int| 0 <= i < rows.len() ==> #[trigger] rows[i].id <= max_id(rows),
        exists|i: int| 0 <= i < rows.len() && #[trigger] rows[i].id == max_id(rows),
    decreases rows.len(),
{
    if rows.len() > 1 {
        let d = rows.drop_last();
        lemma_max_id_bounds(d);
        assert forall|i: int| 0 <= i < rows.len() implies #[trigger] rows[i].id <= max_id(rows) by {
            if i < rows.len() - 1 {
                assert(rows[i] == d[i]);
            }
        }
        if rows.last().id <= max_id(d) {
            let w = choose|i: int| 0 <= i < d.len() && #[trigger] d[i].id == max_id(d);
            assert(rows[w] == d[w]);
            assert(rows[w].id == max_id(rows));
        } else {
            assert(rows[rows.len() - 1].id == max_id(rows));
        }
    } else {
        assert(rows[0].id == max_id(rows));
    }
}

} // verus!
