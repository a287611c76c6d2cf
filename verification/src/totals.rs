//! Reading the interval table: the intervals of a range, the tracked total of
//! a range and of each day of a list.

use vstd::prelude::*;
use crate::model::{DailyTotal, Interval, RangeTotal};
use crate::store::TrackerDb;
use crate::sums::{
    clip, fits_i64, lemma_seq_sum_full, lemma_seq_sum_nonneg_prefix, lemma_seq_sum_take_step,
    overlap_ms, seq_sum,
};

verus! {

/// The interval overlaps `[from, to)`: it starts before `to` and is running
/// or ends after `from`.
pub open spec fn overlaps(x: Interval, from: i64, to: i64) -> bool {
    x.start_ms < to && match x.end_ms {
        Some(e) => e > from,
        None => true,
    }
}

pub open spec fn overlap_pred(from: i64, to: i64) -> spec_fn(Interval) -> bool {
    |x: Interval| overlaps(x, from, to)
}

/// The time a closed interval spends in `[ds, de)`; 0 for a running one.
pub open spec fn closed_ms(x: Interval, ds: i64, de: i64) -> int {
    match x.end_ms {
        Some(e) => overlap_ms(x.start_ms, e, ds, de),
        None => 0,
    }
}

pub open spec fn closed_ms_fn(ds: i64, de: i64) -> spec_fn(Interval) -> int {
    |x: Interval| closed_ms(x, ds, de)
}

/// The time that the closed intervals of a table spend in `[ds, de)`.
pub open spec fn tracked_ms(rows: Seq<Interval>, ds: i64, de: i64) -> int {
    seq_sum(rows, closed_ms_fn(ds, de))
}

/// The total of a range can be computed in `i64`: the cut length of every
/// closed interval that overlaps the range fits, and so does the total.
pub open spec fn range_total_computable(rows: Seq<Interval>, from: i64, to: i64) -> bool {
    &&& forall|i: int|
        0 <= i < rows.len() && #[trigger] rows[i].end_ms is Some && overlaps(rows[i], from, to)
            ==> fits_i64(clip(rows[i].start_ms, rows[i].end_ms->0, from, to))
    &&& tracked_ms(rows, from, to) <= i64::MAX
}

/// `i` is the first of the intervals with the latest start.
pub open spec fn is_first_latest(s: Seq<Interval>, i: int) -> bool {
    &&& 0 <= i < s.len()
    &&& forall|j: int| 0 <= j < s.len() ==> #[trigger] s[j].start_ms <= s[i].start_ms
    &&& forall|j: int| 0 <= j < i ==> #[trigger] s[j].start_ms < s[i].start_ms
}

/// The intervals of a table that overlap `[from, to)` are exactly its rows
/// that start before `to` and are running or end after `from`.
pub proof fn lemma_overlap_filter(rows: Seq<Interval>, from: i64, to: i64)
    ensures
        forall|i: int| 0 <= i < rows.filter(overlap_pred(from, to)).len() ==> {
            let x = #[trigger] rows.filter(overlap_pred(from, to))[i];
            &&& rows.contains(x)
            &&& x.start_ms < to
            &&& (x.end_ms matches Some(e) ==> e > from)
        },
        forall|x: Interval| #[trigger] rows.contains(x) && x.start_ms < to && (x.end_ms matches Some(e) ==> e > from)
            ==> rows.filter(overlap_pred(from, to)).contains(x),
{
    let p = overlap_pred(from, to);
    let f = rows.filter(p);
    assert forall|i: int| 0 <= i < f.len() implies {
        let x = #[trigger] f[i];
        &&& rows.contains(x)
        &&& x.start_ms < to
        &&& (x.end_ms matches Some(e) ==> e > from)
    } by {
        rows.lemma_filter_pred(p, i);
        assert(f.contains(f[i]));
        rows.lemma_filter_contains_rev(p, f[i]);
    }
    assert forall|x: Interval| #[trigger] rows.contains(x) && x.start_ms < to && (x.end_ms matches Some(e) ==> e > from)
        implies f.contains(x) by {
        let k = choose|k: int| 0 <= k < rows.len() && rows[k] == x;
        assert(p(rows[k]));
        rows.lemma_filter_contains(p, k);
    }
}

/// The intervals that overlap `[from, to)`, listed by (start, id).
pub fn get_intervals(db: &TrackerDb, from_ms: i64, to_ms: i64) -> (r: Vec<Interval>)
    ensures
        r@ == db.rows().filter(overlap_pred(from_ms, to_ms)),
        forall|i: int| 0 <= i < r@.len() ==> {
            &&& db.rows().contains(#[trigger] r@[i])
            &&& r@[i].start_ms < to_ms
            &&& (r@[i].end_ms matches Some(e) ==> e > from_ms)
        },
        forall|x: Interval| #[trigger] db.rows().contains(x) && x.start_ms < to_ms && (x.end_ms matches Some(e) ==> e > from_ms)
            ==> r@.contains(x),
{
    let rows = db.intervals();
    let n = rows.len();
    let mut out: Vec<Interval> = Vec::new();
    let mut i: usize = 0;
    while i < n
        invariant
            i <= n,
            n == rows@.len(),
            out@ == rows@.take(i as int).filter(overlap_pred(from_ms, to_ms)),
        decreases n - i,
    {
        let x = rows[i];
        proof {
            assert(rows@.take(i as int + 1) =~= rows@.take(i as int).push(x));
            rows@.take(i as int).lemma_filter_push(x, overlap_pred(from_ms, to_ms));
        }
        let keep = x.start_ms < to_ms && match x.end_ms {
            Some(e) => e > from_ms,
            None => true,
        };
        if keep {
            out.push(x);
        }
        i += 1;
    }
    assert(rows@.take(n as int) =~= rows@);
    proof {
        lemma_overlap_filter(db.rows(), from_ms, to_ms);
    }
    out
}

/// The total tracked in `[from, to)` and the interval overlapping it that
/// started last, or `None` where the total does not fit in an `i64`.
pub fn try_time_range_total(db: &TrackerDb, from_ms: i64, to_ms: i64) -> (r: Option<RangeTotal>)
    ensures
        r is Some <==> range_total_computable(db.rows(), from_ms, to_ms),
        r matches Some(t) ==> {
            &&& t.total_ms == tracked_ms(db.rows(), from_ms, to_ms)
            &&& (t.most_recent is None <==> db.rows().filter(overlap_pred(from_ms, to_ms)).len() == 0)
            &&& (t.most_recent matches Some(m) ==> exists|i: int|
                is_first_latest(db.rows().filter(overlap_pred(from_ms, to_ms)), i)
                    && #[trigger] db.rows().filter(overlap_pred(from_ms, to_ms))[i] == m)
            &&& (t.most_recent matches Some(m) ==> db.rows().contains(m) && m.start_ms < to_ms
                && (m.end_ms matches Some(e) ==> e > from_ms))
        },
{
    let rows = db.intervals();
    let ghost all = rows@;
    let ghost p = overlap_pred(from_ms, to_ms);
    let ghost f = closed_ms_fn(from_ms, to_ms);
    let n = rows.len();
    let mut total: i64 = 0;
    let mut most_recent: Option<Interval> = None;
    let mut i: usize = 0;
    proof {
        assert forall|j: int| 0 <= j < all.len() implies f(#[trigger] all[j]) >= 0 by {}
    }
    while i < n
        invariant
            i <= n,
            n == all.len(),
            all == rows@,
            all == db.rows(),
            p == overlap_pred(from_ms, to_ms),
            f == closed_ms_fn(from_ms, to_ms),
            forall|j: int| 0 <= j < all.len() ==> f(#[trigger] all[j]) >= 0,
            total == seq_sum(all.take(i as int), f),
            forall|j: int|
                0 <= j < i && #[trigger] all[j].end_ms is Some && overlaps(all[j], from_ms, to_ms)
                    ==> fits_i64(clip(all[j].start_ms, all[j].end_ms->0, from_ms, to_ms)),
            most_recent is None <==> all.take(i as int).filter(p).len() == 0,
            most_recent matches Some(m) ==> exists|k: int|
                is_first_latest(all.take(i as int).filter(p), k) && #[trigger] all.take(i as int).filter(p)[k] == m,
        decreases n - i,
    {
        let x = rows[i];
        let ghost fp = all.take(i as int).filter(p);
        proof {
            assert(all.take(i as int + 1) =~= all.take(i as int).push(x));
            all.take(i as int).lemma_filter_push(x, p);
            lemma_seq_sum_take_step(all, f, i as int);
        }
        let keep = x.start_ms < to_ms && match x.end_ms {
            Some(e) => e > from_ms,
            None => true,
        };
        if keep {
            if let Some(end) = x.end_ms {
                let hi = if end < to_ms { end } else { to_ms };
                let lo = if x.start_ms > from_ms { x.start_ms } else { from_ms };
                let d = match hi.checked_sub(lo) {
                    Some(d) => d,
                    None => {
                        return None;
                    },
                };
                let d = if d > 0 { d } else { 0 };
                total = match total.checked_add(d) {
                    Some(t) => t,
                    None => {
                        proof {
                            lemma_seq_sum_nonneg_prefix(all, f, i as int + 1);
                        }
                        return None;
                    },
                };
            }
            proof {
                let nf = fp.push(x);
                match most_recent {
                    None => {
                        assert(is_first_latest(nf, 0));
                        assert(nf[0] == x);
                    },
                    Some(m) => {
                        let k = choose|k: int| is_first_latest(fp, k) && #[trigger] fp[k] == m;
                        if x.start_ms > m.start_ms {
                            assert(is_first_latest(nf, fp.len() as int));
                            assert(nf[fp.len() as int] == x);
                        } else {
                            assert(nf[k] == fp[k]);
                            assert(is_first_latest(nf, k));
                        }
                    },
                }
            }
            let replace = match most_recent {
                None => true,
                Some(m) => x.start_ms > m.start_ms,
            };
            if replace {
                most_recent = Some(x);
            }
        } else {
            proof {
                if let Some(e) = x.end_ms {
                    assert(f(x) == 0);
                }
            }
        }
        i += 1;
    }
    proof {
        assert(all.take(n as int) =~= all);
        lemma_seq_sum_full(all, f);
        lemma_overlap_filter(all, from_ms, to_ms);
        if let Some(m) = most_recent {
            let k = choose|k: int| is_first_latest(all.filter(p), k) && #[trigger] all.filter(p)[k] == m;
            assert(all.filter(p)[k] == m);
        }
    }
    Some(RangeTotal { total_ms: total, most_recent })
}

/// The total tracked in `[from, to)` (the time its closed intervals spend
/// in it) and the interval overlapping it that started last (the first of
/// them in the listing where starts tie).
pub fn get_time_range_total(db: &TrackerDb, from_ms: i64, to_ms: i64) -> (r: RangeTotal)
    requires
        range_total_computable(db.rows(), from_ms, to_ms),
    ensures
        r.total_ms == tracked_ms(db.rows(), from_ms, to_ms),
        r.most_recent is None <==> db.rows().filter(overlap_pred(from_ms, to_ms)).len() == 0,
        r.most_recent matches Some(m) ==> exists|i: int|
            is_first_latest(db.rows().filter(overlap_pred(from_ms, to_ms)), i)
                && #[trigger] db.rows().filter(overlap_pred(from_ms, to_ms))[i] == m,
        r.most_recent matches Some(m) ==> db.rows().contains(m) && m.start_ms < to_ms
            && (m.end_ms matches Some(e) ==> e > from_ms),
{
    match try_time_range_total(db, from_ms, to_ms) {
        Some(t) => t,
        None => RangeTotal { total_ms: 0, most_recent: None },
    }
}


/// The interval is closed, starts before `we` and ends after `ws`.
pub open spec fn in_closed_window(x: Interval, ws: i64, we: i64) -> bool {
    match x.end_ms {
        Some(e) => x.start_ms < we && e > ws,
        None => false,
    }
}

pub open spec fn closed_window_pred(ws: i64, we: i64) -> spec_fn(Interval) -> bool {
    |x: Interval| in_closed_window(x, ws, we)
}

/// A closed interval as a (start, end) pair.
pub open spec fn as_pair(x: Interval) -> (i64, i64) {
    (x.start_ms, x.end_ms->0)
}

/// The (start, end) pairs of the closed intervals that overlap `[ws, we)`, by (start, id).
pub open spec fn closed_window(rows: Seq<Interval>, ws: i64, we: i64) -> Seq<(i64, i64)> {
    rows.filter(closed_window_pred(ws, we)).map_values(|x: Interval| as_pair(x))
}

/// The time the pair `p` spends in `[ds, de)`.
pub open spec fn pair_ms_fn(ds: i64, de: i64) -> spec_fn((i64, i64)) -> int {
    |p: (i64, i64)| overlap_ms(p.0, p.1, ds, de)
}

/// The time the pairs of `cw` spend in `[ds, de)`.
pub open spec fn day_ms(cw: Seq<(i64, i64)>, ds: i64, de: i64) -> int {
    seq_sum(cw, pair_ms_fn(ds, de))
}

/// The pair lies wholly before or after `[ds, de)` and is passed over.
pub open spec fn passed_over(p: (i64, i64), ds: i64, de: i64) -> bool {
    p.0 >= de || p.1 <= ds
}

/// The time of `[ds, de)` can be computed in `i64` from the pairs of `cw`.
pub open spec fn day_computable(cw: Seq<(i64, i64)>, ds: i64, de: i64) -> bool {
    &&& forall|j: int| 0 <= j < cw.len() && !passed_over(#[trigger] cw[j], ds, de)
        ==> fits_i64(clip(cw[j].0, cw[j].1, ds, de))
    &&& day_ms(cw, ds, de) <= i64::MAX
}

/// The closed intervals of a report over `days`: those overlapping the span
/// from the first day's start to the last day's end.
pub open spec fn report_window(rows: Seq<Interval>, days: Seq<(String, i64, i64)>) -> Seq<(i64, i64)> {
    closed_window(rows, days[0].1, days[days.len() - 1].2)
}

/// Every day of the list can be computed in `i64`.
pub open spec fn days_computable(cw: Seq<(i64, i64)>, days: Seq<(String, i64, i64)>) -> bool {
    forall|k: int| 0 <= k < days.len() ==> day_computable(cw, #[trigger] days[k].1, days[k].2)
}

/// The closed intervals overlapping `[from, to)`, as (start, end) pairs listed by (start, id).
pub fn closed_intervals_in_range(db: &TrackerDb, from_ms: i64, to_ms: i64) -> (r: Vec<(i64, i64)>)
    ensures
        r@ == closed_window(db.rows(), from_ms, to_ms),
{
    let rows = db.intervals();
    let ghost all = rows@;
    let ghost p = closed_window_pred(from_ms, to_ms);
    let ghost m = |x: Interval| as_pair(x);
    let n = rows.len();
    let mut out: Vec<(i64, i64)> = Vec::new();
    let mut i: usize = 0;
    while i < n
        invariant
            i <= n,
            n == all.len(),
            all == rows@,
            p == closed_window_pred(from_ms, to_ms),
            m == (|x: Interval| as_pair(x)),
            out@ == all.take(i as int).filter(p).map_values(m),
        decreases n - i,
    {
        let x = rows[i];
        proof {
            assert(all.take(i as int + 1) =~= all.take(i as int).push(x));
            all.take(i as int).lemma_filter_push(x, p);
            all.take(i as int).filter(p).lemma_push_map_commute(m, x);
        }
        if let Some(e) = x.end_ms {
            if x.start_ms < to_ms && e > from_ms {
                out.push((x.start_ms, e));
            }
        }
        i += 1;
    }
    assert(all.take(n as int) =~= all);
    out
}

/// The time the pairs of `cw` spend in `[ds, de)`, passing over those wholly
/// outside it; `None` where it does not fit in an `i64`.
fn try_day_total(cw: &Vec<(i64, i64)>, ds: i64, de: i64) -> (r: Option<i64>)
    ensures
        r is Some <==> day_computable(cw@, ds, de),
        r matches Some(t) ==> t == day_ms(cw@, ds, de),
{
    let ghost f = pair_ms_fn(ds, de);
    let n = cw.len();
    let mut total: i64 = 0;
    let mut i: usize = 0;
    proof {
        assert forall|j: int| 0 <= j < cw@.len() implies f(#[trigger] cw@[j]) >= 0 by {}
    }
    while i < n
        invariant
            i <= n,
            n == cw@.len(),
            f == pair_ms_fn(ds, de),
            forall|j: int| 0 <= j < cw@.len() ==> f(#[trigger] cw@[j]) >= 0,
            total == seq_sum(cw@.take(i as int), f),
            forall|j: int| 0 <= j < i && !passed_over(#[trigger] cw@[j], ds, de)
                ==> fits_i64(clip(cw@[j].0, cw@[j].1, ds, de)),
        decreases n - i,
    {
        let (start, end) = cw[i];
        proof {
            lemma_seq_sum_take_step(cw@, f, i as int);
        }
        if start >= de || end <= ds {
            i += 1;
            continue;
        }
        let hi = if end < de { end } else { de };
        let lo = if start > ds { start } else { ds };
        let d = match hi.checked_sub(lo) {
            Some(d) => d,
            None => {
                return None;
            },
        };
        let d = if d > 0 { d } else { 0 };
        total = match total.checked_add(d) {
            Some(t) => t,
            None => {
                proof {
                    lemma_seq_sum_nonneg_prefix(cw@, f, i as int + 1);
                }
                return None;
            },
        };
        i += 1;
    }
    proof {
        lemma_seq_sum_full(cw@, f);
    }
    Some(total)
}

/// A copy of a string.
fn copy_string(s: &String) -> (r: String)
    ensures
        r@ == s@,
{
    s.clone()
}

/// The total of each day of `days` (key, start, end), in order, counted over
/// the closed intervals that overlap the span of the list; `None` where a
/// total does not fit in an `i64`.
pub fn try_daily_totals(db: &TrackerDb, days: &[(String, i64, i64)]) -> (r: Option<Vec<DailyTotal>>)
    ensures
        r is Some <==> (days@.len() == 0 || days_computable(report_window(db.rows(), days@), days@)),
        r matches Some(v) ==> {
            &&& v@.len() == days@.len()
            &&& forall|k: int| 0 <= k < days@.len() ==> (#[trigger] v@[k]).day@ == days@[k].0@
                && v@[k].total_ms == day_ms(report_window(db.rows(), days@), days@[k].1, days@[k].2)
        },
{
    let n = days.len();
    if n == 0 {
        return Some(Vec::new());
    }
    let first_start = days[0].1;
    let last_end = days[n - 1].2;
    let closed = closed_intervals_in_range(db, first_start, last_end);
    let ghost cw = closed@;
    let mut out: Vec<DailyTotal> = Vec::new();
    let mut k: usize = 0;
    while k < n
        invariant
            k <= n,
            n == days@.len(),
            cw == closed@,
            cw == report_window(db.rows(), days@),
            out@.len() == k,
            forall|j: int| 0 <= j < k ==> day_computable(cw, #[trigger] days@[j].1, days@[j].2),
            forall|j: int| 0 <= j < k ==> (#[trigger] out@[j]).day@ == days@[j].0@
                && out@[j].total_ms == day_ms(cw, days@[j].1, days@[j].2),
        decreases n - k,
    {
        let t = match try_day_total(&closed, days[k].1, days[k].2) {
            Some(t) => t,
            None => {
                return None;
            },
        };
        let key = copy_string(&days[k].0);
        out.push(DailyTotal { day: key, total_ms: t });
        k += 1;
    }
    Some(out)
}

/// The total of each day of `days` (key, start, end), in order: the time
/// that the closed intervals overlapping the span of the list (from the
/// first day's start to the last day's end) spend in the day.
pub fn get_daily_totals(db: &TrackerDb, days: &[(String, i64, i64)]) -> (r: Vec<DailyTotal>)
    requires
        days@.len() == 0 || days_computable(report_window(db.rows(), days@), days@),
    ensures
        r@.len() == days@.len(),
        forall|k: int| 0 <= k < days@.len() ==> (#[trigger] r@[k]).day@ == days@[k].0@
            && r@[k].total_ms == day_ms(report_window(db.rows(), days@), days@[k].1, days@[k].2),
{
    match try_daily_totals(db, days) {
        Some(v) => v,
        None => Vec::new(),
    }
}

} // verus!
