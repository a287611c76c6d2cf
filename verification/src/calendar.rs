//! Calendar days of a report, and the streak as of a day.
//!
//! Days are numbered as chrono numbers them (1 is 0001-01-01); chrono parses
//! and prints `YYYY-MM-DD` keys and finds local midnight, which depends on the
//! machine's time zone.

use vstd::prelude::*;
use chrono::{Datelike, NaiveDate, TimeZone};
use crate::model::{CmdError, Interval};
use crate::store::TrackerDb;
use crate::laws::{law_chunked_streak_is_trailing_run, law_streak_at_most_days};
use crate::streak::{days_meeting_goal, streak_countable, try_streak};
use vstd::string::StringExecFns;

verus! {

/// The first day number chrono can represent (January 1, 262144 BCE).
pub const FIRST_DAY: i32 = -95746129;

/// The last day number chrono can represent (December 31, 262142 CE).
pub const LAST_DAY: i32 = 95745399;

/// What chrono makes of a `YYYY-MM-DD` text: the day's number, or the text of
/// the parse error.
pub uninterp spec fn parsed_day(text: Seq<char>) -> Result<i32, Seq<char>>;

/// The `YYYY-MM-DD` text chrono prints for a day number.
pub uninterp spec fn day_text(day: i32) -> Seq<char>;

/// Parses a `YYYY-MM-DD` key with chrono (`NaiveDate::parse_from_str`) and
/// numbers the day (`Datelike::num_days_from_ce`). Claimed: the result is
/// `parsed_day` of the text, and a parsed day lies within chrono's calendar.
#[verifier::external_body]
fn parse_day(text: &str) -> (r: Result<i32, String>)
    ensures
        match r {
            Ok(n) => parsed_day(text@) == Ok::<i32, Seq<char>>(n) && FIRST_DAY <= n <= LAST_DAY,
            Err(e) => parsed_day(text@) == Err::<i32, Seq<char>>(e@),
        },
{
    match NaiveDate::parse_from_str(text, "%Y-%m-%d") {
        Ok(date) => Ok(date.num_days_from_ce()),
        Err(e) => Err(e.to_string()),
    }
}

/// Prints a day number as a `YYYY-MM-DD` key with chrono
/// (`NaiveDate::from_num_days_from_ce_opt`, then `format`). Claimed: the text
/// is `day_text` of the number.
#[verifier::external_body]
fn format_day(day: i32) -> (r: String)
    requires
        FIRST_DAY <= day <= LAST_DAY,
    ensures
        r@ == day_text(day),
{
    NaiveDate::from_num_days_from_ce_opt(day).expect("day within the calendar").format("%Y-%m-%d").to_string()
}

/// The unix milliseconds of UTC midnight at the start of a day (chrono
/// numbers 1970-01-01 as day 719163).
pub open spec fn utc_midnight_ms(day: int) -> int {
    (day - 719163) * 86_400_000
}

/// `t` is the local midnight of day `day` in some time zone: it lies less
/// than a day from the day's UTC midnight (chrono's offsets are less than a
/// day either way).
pub open spec fn near_midnight(day: int, t: i64) -> bool {
    utc_midnight_ms(day) - 86_400_000 < t < utc_midnight_ms(day) + 86_400_000
}

/// The unix milliseconds of the first local midnight of a day, with chrono
/// (`and_hms_opt(0, 0, 0)`, `Local.from_local_datetime`, `earliest`,
/// `timestamp_millis`), or `None` where the local time does not exist.
/// Claimed: a value is the day's UTC midnight less the local offset, and
/// chrono's offsets (`FixedOffset`) lie strictly within a day either way, so
/// the value is within a day of the day's UTC midnight. Which value, and
/// whether there is one, depends on the machine's time zone and is not
/// claimed.
#[verifier::external_body]
fn local_midnight_ms(day: i32) -> (r: Option<i64>)
    requires
        FIRST_DAY <= day <= LAST_DAY,
    ensures
        r matches Some(t) ==> near_midnight(day as int, t),
{
    let date = NaiveDate::from_num_days_from_ce_opt(day).expect("day within the calendar");
    let midnight = date.and_hms_opt(0, 0, 0).expect("midnight exists");
    match chrono::Local.from_local_datetime(&midnight).earliest() {
        Some(t) => Some(t.timestamp_millis()),
        None => None,
    }
}

/// A day list from `from_day` to `to_day` would need the day after the last
/// day of the calendar: chrono cannot step past it.
pub open spec fn runs_past_calendar(from_day: Seq<char>, to_day: Seq<char>) -> bool {
    parsed_day(from_day) is Ok && parsed_day(to_day) == Ok::<i32, Seq<char>>(LAST_DAY)
}

/// The days of a list run one into the next: each ends where the next starts.
pub open spec fn days_contiguous(v: Seq<(String, i64, i64)>) -> bool {
    forall|k: int| 0 <= k < v.len() - 1 ==> (#[trigger] v[k]).2 == v[k + 1].1
}

/// The list holds the days from day `f` to day `t`: one per day, in order,
/// keyed as chrono prints them, each ending where the next starts, entry `i`
/// running from a local midnight of day `f + i` to one of day `f + i + 1`.
pub open spec fn days_of(f: int, t: int, l: Seq<(String, i64, i64)>) -> bool {
    &&& l.len() == t - f + 1
    &&& forall|i: int| 0 <= i < l.len() ==> (#[trigger] l[i]).0@ == day_text((f + i) as i32)
    &&& days_contiguous(l)
    &&& forall|i: int| 0 <= i < l.len() ==> near_midnight(f + i, (#[trigger] l[i]).1) && near_midnight(f + i + 1, l[i].2)
}

/// What a day list from day `f` to day `t` is: an empty list where `f` is
/// later than `t`; else one (key, start, end) per day from `f` to `t`, keys as
/// chrono prints them, in order, each day ending where the next starts, or the
/// error of a local midnight that does not exist.
pub open spec fn days_outcome(f: i32, t: i32, r: Result<Vec<(String, i64, i64)>, CmdError>) -> bool {
    if f > t {
        r matches Ok(v) && v@.len() == 0
    } else {
        match r {
            Ok(v) => days_of(f as int, t as int, v@),
            Err(c) => c.0@ == "invalid local datetime"@,
        }
    }
}

/// What a day list from `from_day` to `to_day` is: a parse error's text for
/// the first key that does not parse; else the list of the days they number
/// (`days_outcome`).
pub open spec fn day_list_outcome(
    from_day: Seq<char>,
    to_day: Seq<char>,
    r: Result<Vec<(String, i64, i64)>, CmdError>,
) -> bool {
    match parsed_day(from_day) {
        Err(e) => r matches Err(c) && c.0@ == e,
        Ok(f) => match parsed_day(to_day) {
            Err(e) => r matches Err(c) && c.0@ == e,
            Ok(t) => days_outcome(f, t, r),
        },
    }
}

fn invalid_local_datetime() -> (r: CmdError)
    ensures
        r.0@ == "invalid local datetime"@,
{
    CmdError(String::from_str("invalid local datetime"))
}

fn copy_key(s: &String) -> (r: String)
    ensures
        r@ == s@,
{
    s.clone()
}

/// A day list from its keys and the local midnights that bound its days:
/// day `k` runs from `midnights[k]` to `midnights[k + 1]`. The error of a
/// local midnight that does not exist where any of them is missing.
pub fn day_list_from_midnights(keys: &[String], midnights: &[Option<i64>]) -> (r: Result<Vec<(String, i64, i64)>, CmdError>)
    requires
        midnights@.len() == keys@.len() + 1,
    ensures
        r is Ok <==> forall|j: int| 0 <= j < midnights@.len() ==> (#[trigger] midnights@[j]) is Some,
        r matches Ok(v) ==> {
            &&& v@.len() == keys@.len()
            &&& forall|k: int| 0 <= k < v@.len() ==> (#[trigger] v@[k]).0@ == keys@[k]@
                && midnights@[k] == Some(v@[k].1) && midnights@[k + 1] == Some(v@[k].2)
        },
        r matches Err(c) ==> c.0@ == "invalid local datetime"@,
{
    let n = keys.len();
    let mut start = match midnights[0] {
        Some(t) => t,
        None => {
            return Err(invalid_local_datetime());
        },
    };
    let mut days: Vec<(String, i64, i64)> = Vec::new();
    let mut k: usize = 0;
    while k < n
        invariant
            k <= n,
            n == keys@.len(),
            midnights@.len() == n + 1,
            midnights@[k as int] == Some(start),
            forall|j: int| 0 <= j <= k ==> (#[trigger] midnights@[j]) is Some,
            days@.len() == k,
            forall|q: int| 0 <= q < k ==> (#[trigger] days@[q]).0@ == keys@[q]@
                && midnights@[q] == Some(days@[q].1) && midnights@[q + 1] == Some(days@[q].2),
        decreases n - k,
    {
        let end = match midnights[k + 1] {
            Some(t) => t,
            None => {
                return Err(invalid_local_datetime());
            },
        };
        let key = copy_key(&keys[k]);
        days.push((key, start, end));
        start = end;
        k += 1;
    }
    Ok(days)
}

/// The days whose first local midnights bound the days `from..=to`: `from`
/// up to and including `to + 1`, in order.
pub fn midnight_days(from: i32, to: i32) -> (r: Vec<i32>)
    requires
        from <= to < i32::MAX,
    ensures
        r@.len() == to - from + 2,
        forall|k: int| 0 <= k < r@.len() ==> #[trigger] r@[k] == from + k,
{
    let mut days: Vec<i32> = Vec::new();
    let mut cur = from;
    while cur <= to
        invariant
            from <= cur <= to + 1,
            to < i32::MAX,
            days@.len() == cur - from,
            forall|k: int| 0 <= k < days@.len() ==> #[trigger] days@[k] == from + k,
        decreases to + 1 - cur,
    {
        days.push(cur);
        cur = cur + 1;
    }
    days.push(cur);
    days
}

/// The first local midnight of each day of `days`, in order (`None` where
/// it does not exist), each looked up with `local_midnight_ms`: entry `k` is
/// the midnight of day `days[k]`.
fn local_midnights(days: &[i32]) -> (r: Vec<Option<i64>>)
    requires
        forall|k: int| 0 <= k < days@.len() ==> FIRST_DAY <= #[trigger] days@[k] <= LAST_DAY,
    ensures
        r@.len() == days@.len(),
        forall|k: int| 0 <= k < r@.len() ==> (#[trigger] r@[k] matches Some(t) ==> near_midnight(days@[k] as int, t)),
{
    let mut out: Vec<Option<i64>> = Vec::new();
    let mut k: usize = 0;
    while k < days.len()
        invariant
            k <= days@.len(),
            out@.len() == k,
            forall|j: int| 0 <= j < days@.len() ==> FIRST_DAY <= #[trigger] days@[j] <= LAST_DAY,
            forall|j: int| 0 <= j < k ==> (#[trigger] out@[j] matches Some(t) ==> near_midnight(days@[j] as int, t)),
        decreases days@.len() - k,
    {
        out.push(local_midnight_ms(days[k]));
        k += 1;
    }
    out
}

/// The day list from day `from` to day `to`, or `None` where the list would
/// run past the last day of the calendar.
pub fn day_list_between(from: i32, to: i32) -> (r: Option<Result<Vec<(String, i64, i64)>, CmdError>>)
    requires
        FIRST_DAY <= from <= LAST_DAY,
        FIRST_DAY <= to <= LAST_DAY,
    ensures
        r is None <==> from <= to == LAST_DAY,
        r matches Some(x) ==> days_outcome(from, to, x),
{
    if from > to {
        return Some(Ok(Vec::new()));
    }
    if to == LAST_DAY {
        return None;
    }
    let mut keys: Vec<String> = Vec::new();
    let mut cur = from;
    while cur <= to
        invariant
            FIRST_DAY <= from <= cur <= to + 1,
            from <= to < LAST_DAY,
            keys@.len() == cur - from,
            forall|i: int| 0 <= i < keys@.len() ==> (#[trigger] keys@[i])@ == day_text((from + i) as i32),
        decreases to + 1 - cur,
    {
        keys.push(format_day(cur));
        cur = cur + 1;
    }
    let bounds = midnight_days(from, to);
    let midnights = local_midnights(bounds.as_slice());
    let r = day_list_from_midnights(keys.as_slice(), midnights.as_slice());
    proof {
        if r is Ok {
            let v = r->Ok_0;
            assert forall|k: int| 0 <= k < v@.len() - 1 implies (#[trigger] v@[k]).2 == v@[k + 1].1 by {
                assert(midnights@[k + 1] == Some(v@[k].2));
                assert(midnights@[k + 1] == Some(v@[k + 1].1));
            }
            assert forall|k: int| 0 <= k < v@.len() implies near_midnight(from + k, (#[trigger] v@[k]).1)
                && near_midnight(from + k + 1, v@[k].2) by {
                assert(midnights@[k] == Some(v@[k].1));
                assert(midnights@[k + 1] == Some(v@[k].2));
                assert(bounds@[k] == from + k && bounds@[k + 1] == from + k + 1);
            }
        }
    }
    Some(r)
}

/// The day list from `from_day` to `to_day`, or `None` where the list would
/// run past the last day of the calendar.
pub fn try_build_day_list(from_day: &str, to_day: &str) -> (r: Option<Result<Vec<(String, i64, i64)>, CmdError>>)
    ensures
        r is None <==> runs_past_calendar(from_day@, to_day@),
        r matches Some(x) ==> day_list_outcome(from_day@, to_day@, x),
{
    let from = match parse_day(from_day) {
        Ok(n) => n,
        Err(e) => {
            return Some(Err(CmdError(e)));
        },
    };
    let to = match parse_day(to_day) {
        Ok(n) => n,
        Err(e) => {
            return Some(Err(CmdError(e)));
        },
    };
    day_list_between(from, to)
}

/// The calendar days from `from_day` to `to_day` (`YYYY-MM-DD` keys), each
/// with the unix milliseconds of its first local midnight and of the next
/// day's: see `day_list_outcome`.
pub fn build_day_list(from_day: &str, to_day: &str) -> (r: Result<Vec<(String, i64, i64)>, CmdError>)
    requires
        !runs_past_calendar(from_day@, to_day@),
    ensures
        day_list_outcome(from_day@, to_day@, r),
{
    match try_build_day_list(from_day, to_day) {
        Some(r) => r,
        None => Ok(Vec::new()),
    }
}

/// The streak over chunks of days, the latest chunk first, each given as
/// (streak, number of days), from chunk `i` on: the sum of the streaks up to
/// and including the first chunk that is not met in full.
pub open spec fn chunks_total(chunks: Seq<(u32, usize)>, i: int) -> int
    decreases chunks.len() - i,
{
    if i < 0 || i >= chunks.len() {
        0
    } else if chunks[i].0 < chunks[i].1 {
        chunks[i].0 as int
    } else {
        chunks[i].0 + chunks_total(chunks, i + 1)
    }
}

proof fn lemma_chunks_total_nonneg(chunks: Seq<(u32, usize)>, i: int)
    ensures
        chunks_total(chunks, i) >= 0,
    decreases chunks.len() - i,
{
    if 0 <= i < chunks.len() {
        lemma_chunks_total_nonneg(chunks, i + 1);
    }
}

/// Where no chunk counts more than `b` days, the chunks from `i` on count at most `b` per chunk.
proof fn lemma_chunks_total_bound(chunks: Seq<(u32, usize)>, i: int, b: int)
    requires
        0 <= i <= chunks.len(),
        forall|j: int| 0 <= j < chunks.len() ==> (#[trigger] chunks[j]).0 <= b,
    ensures
        chunks_total(chunks, i) <= b * (chunks.len() - i),
    decreases chunks.len() - i,
{
    if i < chunks.len() {
        lemma_chunks_total_bound(chunks, i + 1, b);
        lemma_chunks_total_nonneg(chunks, i + 1);
        let rest = chunks.len() - (i + 1);
        assert(chunks[i].0 <= b);
        assert(rest >= 0);
        assert(b * (rest + 1) == b + b * rest) by (nonlinear_arith);
        assert(b * rest >= 0) by (nonlinear_arith)
            requires
                b >= 0,
                rest >= 0,
        ;
        assert(chunks_total(chunks, i) <= chunks[i].0 + chunks_total(chunks, i + 1));
        assert(chunks.len() - i == rest + 1);
    }
}

/// The streak over chunks of days (`chunks_total` from the first chunk), or
/// `None` where it does not fit in a `u32`.
pub fn combine_chunks(chunks: &[(u32, usize)]) -> (r: Option<u32>)
    ensures
        r is Some <==> chunks_total(chunks@, 0) <= u32::MAX,
        r matches Some(s) ==> s == chunks_total(chunks@, 0),
{
    let n = chunks.len();
    let mut total: u32 = 0;
    let mut i: usize = 0;
    while i < n
        invariant
            i <= n,
            n == chunks@.len(),
            chunks_total(chunks@, 0) == total + chunks_total(chunks@, i as int),
        decreases n - i,
    {
        let (s, len) = chunks[i];
        proof {
            lemma_chunks_total_nonneg(chunks@, i + 1);
        }
        total = match total.checked_add(s) {
            Some(t) => t,
            None => {
                return None;
            },
        };
        if (s as usize) < len {
            return Some(total);
        }
        i += 1;
    }
    Some(total)
}

/// Every day of the list met its goal.
pub open spec fn chunk_met(rows: Seq<Interval>, goals: Seq<(Seq<char>, i64)>, l: Seq<(String, i64, i64)>) -> bool {
    days_meeting_goal(rows, goals, l, l.len() as int) == l.len()
}

/// The day lists of chunks given newest first, joined into one list oldest first.
pub open spec fn joined(ls: Seq<Seq<(String, i64, i64)>>) -> Seq<(String, i64, i64)>
    decreases ls.len(),
{
    if ls.len() == 0 {
        Seq::empty()
    } else {
        joined(ls.drop_first()) + ls[0]
    }
}

/// List `j` holds the days of chunk `j` of a count as of day `a`: from day
/// `a - 31 j - 30` to day `a - 31 j`.
pub open spec fn chunk_days(a: int, ls: Seq<Seq<(String, i64, i64)>>) -> bool {
    forall|j: int| 0 <= j < ls.len() ==> days_of(a - 31 * j - 30, a - 31 * j, #[trigger] ls[j])
}

/// The day lists of a count as of day `a`, newest chunk first: at most 1200
/// chunks of 31 days back from `a`, every one but the last met in full, and
/// the last one short of full unless there are 1200.
pub open spec fn chunk_lists_as_of(
    rows: Seq<Interval>,
    goals: Seq<(Seq<char>, i64)>,
    a: int,
    ls: Seq<Seq<(String, i64, i64)>>,
) -> bool {
    &&& 0 < ls.len() <= 1200
    &&& chunk_days(a, ls)
    &&& forall|j: int| 0 <= j < ls.len() - 1 ==> chunk_met(rows, goals, #[trigger] ls[j])
    &&& ls.len() == 1200 || !chunk_met(rows, goals, ls[ls.len() - 1])
}

/// A count as of day `a` is refused after the chunks `ls`, all met in full:
/// the next chunk would begin before the first day of the calendar, or
/// (before the 1200th chunk) the streak of its day list cannot be counted.
pub open spec fn refused_after(
    rows: Seq<Interval>,
    goals: Seq<(Seq<char>, i64)>,
    a: int,
    ls: Seq<Seq<(String, i64, i64)>>,
) -> bool {
    let j = ls.len() as int;
    &&& j <= 1200
    &&& chunk_days(a, ls)
    &&& forall|i: int| 0 <= i < j ==> chunk_met(rows, goals, #[trigger] ls[i])
    &&& (a - 31 * j - 30 < FIRST_DAY || (j < 1200 && exists|l: Seq<(String, i64, i64)>|
        #[trigger] days_of(a - 31 * j - 30, a - 31 * j, l) && !streak_countable(rows, goals, l)))
}

/// The streak as of `as_of_day`, counted over chunks of 31 days going back,
/// at most 1200 of them: chunk `j` is the day list (`day_list_between`) from
/// day `as_of - 31 j - 30` to day `as_of - 31 j`, its streak is what
/// `try_streak` counts on it, and the chunks' streaks are combined by
/// `combine_chunks`: a chunk that is not met in full ends the count. The
/// count is the number of days, back from `as_of_day`, that met their goal
/// (`chunk_lists_as_of`, and `law_chunked_streak_is_trailing_run`). `None`
/// where the count cannot be made: `as_of_day` is the last day of the
/// calendar, or a chunk would begin before its first day, or a chunk's
/// streak cannot be counted (`refused_after`). The chunks' midnights come
/// from chrono and the machine's time zone.
pub fn streak_as_of(db: &TrackerDb, as_of_day: &str) -> (r: Option<Result<u32, CmdError>>)
    requires
        db.wf(),
    ensures
        parsed_day(as_of_day@) matches Err(e) ==> r matches Some(Err(c)) && c.0@ == e,
        parsed_day(as_of_day@) matches Ok(a) && (a < FIRST_DAY + 30 || a == LAST_DAY) ==> r is None,
        parsed_day(as_of_day@) is Ok ==> (r matches Some(Err(c)) ==> c.0@ == "invalid local datetime"@),
        r matches Some(Ok(s)) ==> s <= 37200,
        parsed_day(as_of_day@) matches Ok(a) ==> (r matches Some(Ok(s)) ==> (exists|ls: Seq<Seq<(String, i64, i64)>>|
            chunk_lists_as_of(db.rows(), db.goals(), a as int, ls)
                && s == days_meeting_goal(db.rows(), db.goals(), joined(ls), joined(ls).len() as int))),
        parsed_day(as_of_day@) matches Ok(a) ==> (r is None ==> (a == LAST_DAY || exists|ls: Seq<Seq<(String, i64, i64)>>|
            refused_after(db.rows(), db.goals(), a as int, ls))),
{
    let mut chunk_end = match parse_day(as_of_day) {
        Ok(n) => n,
        Err(e) => {
            return Some(Err(CmdError(e)));
        },
    };
    let ghost as_of = chunk_end;
    let ghost rows = db.rows();
    let ghost goals = db.goals();
    let ghost mut ls: Seq<Seq<(String, i64, i64)>> = Seq::empty();
    let mut chunks: Vec<(u32, usize)> = Vec::new();
    let mut round: u32 = 0;
    while round < 1200
        invariant_except_break
            chunk_end == as_of - 31 * round,
            forall|j: int| 0 <= j < ls.len() ==> chunk_met(rows, goals, #[trigger] ls[j]),
        invariant
            round <= 1200,
            db.wf(),
            rows == db.rows(),
            goals == db.goals(),
            parsed_day(as_of_day@) == Ok::<i32, Seq<char>>(as_of),
            FIRST_DAY <= chunk_end <= LAST_DAY,
            round == 0 ==> chunk_end == as_of,
            (as_of < FIRST_DAY + 30 || as_of == LAST_DAY) ==> round == 0,
            chunk_end < LAST_DAY || round == 0,
            chunks@.len() == round,
            ls.len() == round,
            chunk_days(as_of as int, ls),
            forall|j: int| 0 <= j < chunks@.len() ==> (#[trigger] chunks@[j]).0 <= 31,
            forall|j: int| 0 <= j < chunks@.len() ==> (#[trigger] chunks@[j]).0 == days_meeting_goal(
                rows,
                goals,
                ls[j],
                ls[j].len() as int,
            ) && chunks@[j].1 == ls[j].len(),
        ensures
            round >= 1,
            chunk_lists_as_of(rows, goals, as_of as int, ls),
        decreases 1200 - round,
    {
        if chunk_end < FIRST_DAY + 30 {
            proof {
                assert(refused_after(rows, goals, as_of as int, ls));
            }
            return None;
        }
        let chunk_start = chunk_end - 30;
        let days = match day_list_between(chunk_start, chunk_end) {
            None => {
                return None;
            },
            Some(Err(e)) => {
                return Some(Err(e));
            },
            Some(Ok(days)) => days,
        };
        let chunk = match try_streak(db, days.as_slice()) {
            None => {
                proof {
                    assert(days_of(chunk_start as int, chunk_end as int, days@));
                    assert(refused_after(rows, goals, as_of as int, ls));
                }
                return None;
            },
            Some(s) => s,
        };
        let len = days.len();
        proof {
            law_streak_at_most_days(rows, goals, days@, days@.len() as int);
            assert(days_of(chunk_start as int, chunk_end as int, days@));
            let old_ls = ls;
            ls = ls.push(days@);
            assert forall|j: int| 0 <= j < ls.len() implies days_of(
                as_of - 31 * j - 30,
                as_of - 31 * j,
                #[trigger] ls[j],
            ) by {
                if j < old_ls.len() {
                    assert(ls[j] == old_ls[j]);
                }
            }
        }
        chunks.push((chunk, len));
        round += 1;
        if (chunk as usize) < len {
            break;
        }
        if chunk_start == FIRST_DAY {
            proof {
                assert(refused_after(rows, goals, as_of as int, ls));
            }
            return None;
        }
        chunk_end = chunk_start - 1;
    }
    proof {
        lemma_chunks_total_bound(chunks@, 0, 31);
        law_chunked_streak_is_trailing_run(rows, goals, chunks@, ls);
    }
    match combine_chunks(chunks.as_slice()) {
        Some(s) => Some(Ok(s)),
        None => None,
    }
}

} // verus!
