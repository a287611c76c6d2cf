use time_tracker::model::{DbError, Interval};
use time_tracker::store::{
    begin_interval, end_interval, get_current_goal, get_most_recent_interval, set_daily_goal,
    update_interval, TrackerDb,
};
use time_tracker::streak::get_streak;
use time_tracker::totals::{get_intervals, get_time_range_total};

fn setup() -> TrackerDb {
    TrackerDb::new()
}

#[test]
fn most_recent_is_none_when_idle() {
    let db = setup();
    assert_eq!(get_most_recent_interval(&db), None);
}

#[test]
fn begin_creates_running_interval() {
    let mut db = setup();
    begin_interval(&mut db, 1000).unwrap();
    let i = get_most_recent_interval(&db).unwrap();
    assert!(i.is_running());
    assert_eq!(i.start_ms, 1000);
}

#[test]
fn begin_when_running_errors() {
    let mut db = setup();
    begin_interval(&mut db, 1000).unwrap();
    assert!(matches!(begin_interval(&mut db, 2000), Err(DbError::AlreadyRunning)));
}

#[test]
fn end_closes_running_interval() {
    let mut db = setup();
    begin_interval(&mut db, 1000).unwrap();
    end_interval(&mut db, 5000).unwrap();
    let i = get_most_recent_interval(&db).unwrap();
    assert!(!i.is_running());
    assert_eq!(i.end_ms, Some(5000));
    let intervals = get_intervals(&db, 0, 10_000);
    assert_eq!(intervals.len(), 1);
}

#[test]
fn end_when_idle_errors() {
    let mut db = setup();
    assert!(matches!(end_interval(&mut db, 1000), Err(DbError::NoneRunning)));
}

#[test]
fn get_intervals_filters_by_overlap() {
    let mut db = setup();
    begin_interval(&mut db, 1000).unwrap();
    end_interval(&mut db, 2000).unwrap();
    begin_interval(&mut db, 5000).unwrap();
    end_interval(&mut db, 7000).unwrap();
    begin_interval(&mut db, 8000).unwrap();

    let result = get_intervals(&db, 4000, 9000);
    assert_eq!(result.len(), 2);
    assert_eq!(result[0].start_ms, 5000);
    assert_eq!(result[1].start_ms, 8000);
    assert_eq!(result[1].end_ms, None);
}

#[test]
fn get_intervals_excludes_non_overlapping() {
    let mut db = setup();
    begin_interval(&mut db, 1000).unwrap();
    end_interval(&mut db, 2000).unwrap();
    let result = get_intervals(&db, 5000, 6000);
    assert!(result.is_empty());
}

#[test]
fn range_total_empty() {
    let db = setup();
    let r = get_time_range_total(&db, 0, 10_000);
    assert_eq!(r.total_ms, 0);
    assert_eq!(r.most_recent, None);
}

#[test]
fn range_total_closed_inside_window() {
    let mut db = setup();
    begin_interval(&mut db, 2000).unwrap();
    end_interval(&mut db, 5000).unwrap();
    let r = get_time_range_total(&db, 0, 10_000);
    assert_eq!(r.total_ms, 3000);
    let m = r.most_recent.unwrap();
    assert_eq!(m.start_ms, 2000);
    assert_eq!(m.end_ms, Some(5000));
}

#[test]
fn range_total_clipped_left() {
    let mut db = setup();
    begin_interval(&mut db, 500).unwrap();
    end_interval(&mut db, 3000).unwrap();
    let r = get_time_range_total(&db, 1000, 10_000);
    assert_eq!(r.total_ms, 2000);
    let m = r.most_recent.unwrap();
    assert_eq!(m.start_ms, 500);
    assert_eq!(m.end_ms, Some(3000));
}

#[test]
fn range_total_clipped_right() {
    let mut db = setup();
    begin_interval(&mut db, 8000).unwrap();
    end_interval(&mut db, 12_000).unwrap();
    let r = get_time_range_total(&db, 0, 10_000);
    assert_eq!(r.total_ms, 2000);
    let m = r.most_recent.unwrap();
    assert_eq!(m.start_ms, 8000);
    assert_eq!(m.end_ms, Some(12_000));
}

#[test]
fn range_total_closed_spans_window() {
    let mut db = setup();
    begin_interval(&mut db, 500).unwrap();
    end_interval(&mut db, 20_000).unwrap();
    let r = get_time_range_total(&db, 1000, 10_000);
    assert_eq!(r.total_ms, 9000);
    let m = r.most_recent.unwrap();
    assert_eq!(m.start_ms, 500);
    assert_eq!(m.end_ms, Some(20_000));
}

#[test]
fn range_total_non_overlapping_excluded() {
    let mut db = setup();
    begin_interval(&mut db, 1000).unwrap();
    end_interval(&mut db, 2000).unwrap();
    let r = get_time_range_total(&db, 5000, 10_000);
    assert_eq!(r.total_ms, 0);
    assert_eq!(r.most_recent, None);
}

#[test]
fn range_total_running_inside_window() {
    let mut db = setup();
    begin_interval(&mut db, 3000).unwrap();
    let r = get_time_range_total(&db, 0, 10_000);
    assert_eq!(r.total_ms, 0);
    let m = r.most_recent.unwrap();
    assert_eq!(m.start_ms, 3000);
    assert_eq!(m.end_ms, None);
}

#[test]
fn range_total_running_clipped_left() {
    let mut db = setup();
    begin_interval(&mut db, 500).unwrap();
    let r = get_time_range_total(&db, 1000, 10_000);
    assert_eq!(r.total_ms, 0);
    let m = r.most_recent.unwrap();
    assert_eq!(m.start_ms, 500);
    assert_eq!(m.end_ms, None);
}

#[test]
fn update_interval_changes_times() {
    let mut db = setup();
    begin_interval(&mut db, 1000).unwrap();
    end_interval(&mut db, 5000).unwrap();
    let original = get_most_recent_interval(&db).unwrap();
    update_interval(&mut db, original.id, 2000, Some(6000)).unwrap();
    let updated = get_most_recent_interval(&db).unwrap();
    assert_eq!(updated.start_ms, 2000);
    assert_eq!(updated.end_ms, Some(6000));
}

#[test]
fn update_interval_not_found_errors() {
    let mut db = setup();
    assert!(matches!(update_interval(&mut db, 999, 1000, Some(2000)), Err(DbError::NotFound)));
}

#[test]
fn goal_none_on_empty_table() {
    let db = setup();
    assert_eq!(get_current_goal(&db), None);
}

#[test]
fn goal_insert_and_retrieve() {
    let mut db = setup();
    set_daily_goal(&mut db, "2024-01-15", 3_600_000);
    let g = get_current_goal(&db).unwrap();
    assert_eq!(g.day, "2024-01-15");
    assert_eq!(g.goal_ms, 3_600_000);
}

#[test]
fn goal_same_day_overwrites() {
    let mut db = setup();
    set_daily_goal(&mut db, "2024-01-15", 3_600_000);
    set_daily_goal(&mut db, "2024-01-15", 7_200_000);
    let g = get_current_goal(&db).unwrap();
    assert_eq!(g.goal_ms, 7_200_000);
    let count = db.goal_list().len();
    assert_eq!(count, 1);
}

#[test]
fn goal_different_days_returns_most_recent() {
    let mut db = setup();
    set_daily_goal(&mut db, "2024-01-14", 3_600_000);
    set_daily_goal(&mut db, "2024-01-15", 5_400_000);
    let g = get_current_goal(&db).unwrap();
    assert_eq!(g.day, "2024-01-15");
    assert_eq!(g.goal_ms, 5_400_000);
}

// Builds a contiguous ascending day list of `n` days, each `len` ms wide,
// starting at `start`. Keys are synthetic but sort chronologically.
fn day_list(start: i64, len: i64, n: i64) -> Vec<(String, i64, i64)> {
    (0..n)
        .map(|i| {
            let s = start + i * len;
            (format!("2024-01-{:02}", i + 1), s, s + len)
        })
        .collect()
}

#[test]
fn streak_empty_days_is_zero() {
    let db = setup();
    assert_eq!(get_streak(&db, &[]), 0);
}

#[test]
fn streak_no_goal_is_zero() {
    let mut db = setup();
    begin_interval(&mut db, 0).unwrap();
    end_interval(&mut db, 100).unwrap();
    let days = day_list(0, 100, 3);
    assert_eq!(get_streak(&db, &days), 0);
}

#[test]
fn streak_counts_trailing_run() {
    let mut db = setup();
    // Days: [0,100) [100,200) [200,300). Goal 50ms from day 1 (key 2024-01-01).
    // Fill day 0 and day 2 fully, leave day 1 empty.
    begin_interval(&mut db, 0).unwrap();
    end_interval(&mut db, 100).unwrap();
    begin_interval(&mut db, 200).unwrap();
    end_interval(&mut db, 300).unwrap();
    set_daily_goal(&mut db, "2024-01-01", 50);
    let days = day_list(0, 100, 3);
    // Last day meets goal, prior day (empty) breaks it.
    assert_eq!(get_streak(&db, &days), 1);
}

#[test]
fn streak_full_run() {
    let mut db = setup();
    begin_interval(&mut db, 0).unwrap();
    end_interval(&mut db, 300).unwrap();
    set_daily_goal(&mut db, "2024-01-01", 50);
    let days = day_list(0, 100, 3);
    assert_eq!(get_streak(&db, &days), 3);
}

#[test]
fn streak_clips_border_intervals() {
    let mut db = setup();
    // One interval straddling the boundary between day 0 and day 1.
    // Day 0 gets [80,100)=20ms, day 1 gets [100,150)=50ms.
    begin_interval(&mut db, 80).unwrap();
    end_interval(&mut db, 150).unwrap();
    set_daily_goal(&mut db, "2024-01-01", 40);
    let days = day_list(0, 100, 2);
    // Day 1 has 50 >= 40 (meets), day 0 has 20 < 40 (breaks).
    assert_eq!(get_streak(&db, &days), 1);
}

#[test]
fn streak_sums_multiple_intervals_per_day() {
    let mut db = setup();
    // Day 0: two intervals totaling 60ms.
    begin_interval(&mut db, 0).unwrap();
    end_interval(&mut db, 30).unwrap();
    begin_interval(&mut db, 40).unwrap();
    end_interval(&mut db, 70).unwrap();
    set_daily_goal(&mut db, "2024-01-01", 60);
    let days = day_list(0, 100, 1);
    assert_eq!(get_streak(&db, &days), 1);
}

#[test]
fn streak_goal_change_applies_per_day() {
    let mut db = setup();
    // Days 0..3 each filled with 100ms.
    begin_interval(&mut db, 0).unwrap();
    end_interval(&mut db, 300).unwrap();
    set_daily_goal(&mut db, "2024-01-01", 50); // days 1..2 use 50
    set_daily_goal(&mut db, "2024-01-03", 150); // day 3 needs 150 -> fails
    let days = day_list(0, 100, 3);
    // Last day fails its raised goal immediately.
    assert_eq!(get_streak(&db, &days), 0);
}

#[test]
fn range_total_mix_closed_and_running() {
    let mut db = setup();
    begin_interval(&mut db, 1000).unwrap();
    end_interval(&mut db, 2500).unwrap();
    begin_interval(&mut db, 4000).unwrap();
    end_interval(&mut db, 5000).unwrap();
    begin_interval(&mut db, 7000).unwrap();
    let r = get_time_range_total(&db, 0, 10_000);
    assert_eq!(r.total_ms, 2500);
    let m = r.most_recent.unwrap();
    assert_eq!(m.start_ms, 7000);
    assert_eq!(m.end_ms, None);
}

#[test]
fn interval_is_running_without_end() {
    let running = Interval { id: 1, start_ms: 10, end_ms: None };
    let closed = Interval { id: 2, start_ms: 10, end_ms: Some(20) };
    assert!(running.is_running());
    assert!(!closed.is_running());
}
