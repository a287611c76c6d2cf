use chrono::Datelike;
use time_tracker::calendar::{
    build_day_list, combine_chunks, day_list_between, day_list_from_midnights, midnight_days, streak_as_of, try_build_day_list,
    LAST_DAY,
};
use time_tracker::clock_text::{format_hms, toggle_label, tray_title, tray_tooltip};
use time_tracker::commands::{remove_interval, stop_running_interval, toggle_starts};
use time_tracker::daily::get_applicable_goals;
use time_tracker::idle::{idle_check, idle_ms_from_ticks};
use time_tracker::model::{CmdError, DailyGoal, DbError, IdleDetected, Interval, TimerState};
use time_tracker::store::{
    begin_interval, delete_interval, end_interval, get_most_recent_interval, set_daily_goal,
    timer_state, try_begin_interval, try_timer_state, update_interval, TrackerDb,
};
use time_tracker::streak::{get_streak, try_streak};
use time_tracker::totals::{
    closed_intervals_in_range, get_daily_totals, get_intervals, get_time_range_total,
    try_daily_totals, try_time_range_total,
};

fn closed(db: &mut TrackerDb, start: i64, end: i64) {
    begin_interval(db, start).unwrap();
    end_interval(db, end).unwrap();
}

fn days(spec: &[(&str, i64, i64)]) -> Vec<(String, i64, i64)> {
    spec.iter().map(|(k, s, e)| (k.to_string(), *s, *e)).collect()
}

#[test]
fn timer_follows_start_and_stop() {
    let mut db = TrackerDb::new();
    assert_eq!(timer_state(&db), TimerState::Empty);
    begin_interval(&mut db, 1000).unwrap();
    assert_eq!(timer_state(&db), TimerState::Running { start_ms: 1000 });
    end_interval(&mut db, 4500).unwrap();
    assert_eq!(timer_state(&db), TimerState::Paused { last_duration_ms: 3500 });
}

#[test]
fn second_start_is_refused_and_changes_nothing() {
    let mut db = TrackerDb::new();
    begin_interval(&mut db, 1000).unwrap();
    assert_eq!(begin_interval(&mut db, 9000), Err(DbError::AlreadyRunning));
    assert_eq!(get_intervals(&db, 0, 100_000).len(), 1);
}

#[test]
fn new_ids_are_one_past_the_largest() {
    let mut db = TrackerDb::new();
    closed(&mut db, 100, 200);
    closed(&mut db, 300, 400);
    let rows = get_intervals(&db, 0, 1000);
    assert_eq!(rows[0].id, 1);
    assert_eq!(rows[1].id, 2);
    delete_interval(&mut db, 2).unwrap();
    begin_interval(&mut db, 500).unwrap();
    assert_eq!(get_most_recent_interval(&db).unwrap().id, 2);
}

#[test]
fn start_before_the_latest_keeps_the_latest_most_recent() {
    let mut db = TrackerDb::new();
    closed(&mut db, 1000, 2000);
    begin_interval(&mut db, 500).unwrap();
    let latest = get_most_recent_interval(&db).unwrap();
    assert_eq!(latest.start_ms, 1000);
    assert_eq!(timer_state(&db), TimerState::Paused { last_duration_ms: 1000 });
    let rows = get_intervals(&db, 0, 3000);
    assert_eq!(rows[0].start_ms, 500);
    assert_eq!(rows[1].start_ms, 1000);
}

#[test]
fn stopping_closes_every_running_interval() {
    let mut db = TrackerDb::new();
    closed(&mut db, 100, 200);
    begin_interval(&mut db, 300).unwrap();
    update_interval(&mut db, 1, 100, None).unwrap();
    end_interval(&mut db, 900).unwrap();
    let rows = get_intervals(&db, 0, 1000);
    assert_eq!(rows[0].end_ms, Some(900));
    assert_eq!(rows[1].end_ms, Some(900));
}

#[test]
fn update_moves_the_interval_in_the_listing() {
    let mut db = TrackerDb::new();
    closed(&mut db, 1000, 2000);
    closed(&mut db, 3000, 4000);
    update_interval(&mut db, 1, 5000, Some(6000)).unwrap();
    let rows = get_intervals(&db, 0, 10_000);
    assert_eq!(rows.len(), 2);
    assert_eq!(rows[0], Interval { id: 2, start_ms: 3000, end_ms: Some(4000) });
    assert_eq!(rows[1], Interval { id: 1, start_ms: 5000, end_ms: Some(6000) });
    assert_eq!(get_most_recent_interval(&db).unwrap().id, 1);
}

#[test]
fn delete_removes_only_that_interval() {
    let mut db = TrackerDb::new();
    closed(&mut db, 1000, 2000);
    closed(&mut db, 3000, 4000);
    delete_interval(&mut db, 1).unwrap();
    let rows = get_intervals(&db, 0, 10_000);
    assert_eq!(rows, vec![Interval { id: 2, start_ms: 3000, end_ms: Some(4000) }]);
    assert_eq!(delete_interval(&mut db, 1), Err(DbError::NotFound));
}

#[test]
fn loading_checks_the_keys() {
    let a = Interval { id: 1, start_ms: 10, end_ms: Some(20) };
    let b = Interval { id: 2, start_ms: 30, end_ms: None };
    let goal = |d: &str, g: i64| DailyGoal { day: d.to_string(), goal_ms: g };
    assert!(TrackerDb::from_rows(vec![a, b], vec![goal("2024-01-01", 5)]).is_some());
    assert!(TrackerDb::from_rows(vec![b, a], vec![]).is_none());
    let dup = Interval { id: 1, start_ms: 40, end_ms: None };
    assert!(TrackerDb::from_rows(vec![a, dup], vec![]).is_none());
    assert!(TrackerDb::from_rows(vec![a], vec![goal("2024-01-01", 5), goal("2024-01-01", 6)]).is_none());
    let db = TrackerDb::from_rows(vec![a, b], vec![]).unwrap();
    assert_eq!(timer_state(&db), TimerState::Running { start_ms: 30 });
}

#[test]
fn overflowing_durations_are_reported() {
    let a = Interval { id: 1, start_ms: i64::MIN, end_ms: Some(i64::MAX) };
    let mut db = TrackerDb::from_rows(vec![a], vec![]).unwrap();
    assert_eq!(try_timer_state(&db), None);
    assert_eq!(try_begin_interval(&mut db, 0), None);
    assert_eq!(try_time_range_total(&db, i64::MIN, i64::MAX), None);
    assert!(try_time_range_total(&db, 0, 10).is_some());
}

#[test]
fn range_total_picks_first_of_equal_starts() {
    let mut db = TrackerDb::new();
    closed(&mut db, 1000, 2000);
    closed(&mut db, 3000, 3500);
    update_interval(&mut db, 2, 1000, Some(1500)).unwrap();
    let r = get_time_range_total(&db, 0, 10_000);
    assert_eq!(r.total_ms, 1500);
    assert_eq!(r.most_recent.unwrap().id, 1);
}

#[test]
fn daily_totals_cut_intervals_at_day_borders() {
    let mut db = TrackerDb::new();
    closed(&mut db, 80, 150);
    closed(&mut db, 220, 260);
    let list = days(&[("2024-01-01", 0, 100), ("2024-01-02", 100, 200), ("2024-01-03", 200, 300)]);
    let totals = get_daily_totals(&db, &list);
    let got: Vec<(String, i64)> = totals.iter().map(|t| (t.day.clone(), t.total_ms)).collect();
    assert_eq!(
        got,
        vec![("2024-01-01".to_string(), 20), ("2024-01-02".to_string(), 50), ("2024-01-03".to_string(), 40)]
    );
    assert!(get_daily_totals(&db, &[]).is_empty());
    assert_eq!(closed_intervals_in_range(&db, 0, 300), vec![(80, 150), (220, 260)]);
}

#[test]
fn one_day_total_matches_range_total() {
    let mut db = TrackerDb::new();
    closed(&mut db, 500, 3000);
    closed(&mut db, 4000, 12_000);
    begin_interval(&mut db, 13_000).unwrap();
    let range = get_time_range_total(&db, 1000, 10_000);
    let daily = get_daily_totals(&db, &days(&[("2024-01-01", 1000, 10_000)]));
    assert_eq!(range.total_ms, 8000);
    assert_eq!(daily[0].total_ms, range.total_ms);
}

#[test]
fn daily_totals_overflow_is_reported() {
    let a = Interval { id: 1, start_ms: i64::MIN, end_ms: Some(i64::MAX) };
    let db = TrackerDb::from_rows(vec![a], vec![]).unwrap();
    assert!(try_daily_totals(&db, &days(&[("k", i64::MIN, i64::MAX)])).is_none());
    assert!(try_daily_totals(&db, &days(&[("k", 0, 10)])).is_some());
}

#[test]
fn applicable_goals_carry_the_latest_goal_forward() {
    let mut db = TrackerDb::new();
    set_daily_goal(&mut db, "2024-01-04", 70);
    set_daily_goal(&mut db, "2024-01-02", 50);
    let keys: Vec<String> = ["2024-01-01", "2024-01-02", "2024-01-03", "2024-01-04"].iter().map(|k| k.to_string()).collect();
    let goals = get_applicable_goals(&db, &keys);
    let got: Vec<i64> = goals.iter().map(|g| g.goal_ms).collect();
    assert_eq!(got, vec![0, 50, 50, 70]);
    assert_eq!(goals[2].day, "2024-01-03");
    assert!(get_applicable_goals(&db, &[]).is_empty());
}

#[test]
fn applicable_goals_follow_the_greatest_key_so_far() {
    let mut db = TrackerDb::new();
    set_daily_goal(&mut db, "2024-01-02", 50);
    set_daily_goal(&mut db, "2024-01-05", 90);
    let keys: Vec<String> = ["2024-01-03", "2024-01-01", "2024-01-06"].iter().map(|k| k.to_string()).collect();
    let got: Vec<i64> = get_applicable_goals(&db, &keys).iter().map(|g| g.goal_ms).collect();
    assert_eq!(got, vec![50, 50, 90]);
}

#[test]
fn streak_counts_days_meeting_their_goal() {
    let mut db = TrackerDb::new();
    closed(&mut db, 0, 60);
    closed(&mut db, 100, 200);
    closed(&mut db, 200, 290);
    set_daily_goal(&mut db, "2024-01-01", 70);
    let list = days(&[("2024-01-01", 0, 100), ("2024-01-02", 100, 200), ("2024-01-03", 200, 300)]);
    let totals: Vec<i64> = get_daily_totals(&db, &list).iter().map(|t| t.total_ms).collect();
    assert_eq!(totals, vec![60, 100, 90]);
    assert_eq!(get_streak(&db, &list), 2);
    assert_eq!(try_streak(&db, &list), Some(2));
}

#[test]
fn streak_counts_an_interval_inside_another() {
    let outer = Interval { id: 1, start_ms: 0, end_ms: Some(300) };
    let inner = Interval { id: 2, start_ms: 50, end_ms: Some(60) };
    let goal = DailyGoal { day: "2024-01-01".to_string(), goal_ms: 50 };
    let db = TrackerDb::from_rows(vec![outer, inner], vec![goal]).unwrap();
    let list = days(&[("2024-01-01", 0, 100), ("2024-01-02", 100, 200), ("2024-01-03", 200, 300)]);
    assert_eq!(get_streak(&db, &list), 3);
    assert_eq!(try_streak(&db, &list), Some(3));
}

#[test]
fn streak_with_an_interval_ending_before_it_starts() {
    let a = Interval { id: 1, start_ms: 15, end_ms: Some(11) };
    let b = Interval { id: 2, start_ms: 20, end_ms: Some(30) };
    let goal = DailyGoal { day: "2024-01-01".to_string(), goal_ms: 5 };
    let db = TrackerDb::from_rows(vec![a, b], vec![goal]).unwrap();
    let list = days(&[("2024-01-01", 0, 5), ("2024-01-02", 12, 14), ("2024-01-03", 20, 30)]);
    assert_eq!(try_streak(&db, &list), Some(1));
}

#[test]
fn streak_of_a_day_too_long_to_total_is_not_counted() {
    let a = Interval { id: 1, start_ms: i64::MIN, end_ms: Some(i64::MAX) };
    let goal = DailyGoal { day: "2024-01-01".to_string(), goal_ms: 5 };
    let db = TrackerDb::from_rows(vec![a], vec![goal]).unwrap();
    let list = days(&[("2024-01-01", i64::MIN, i64::MAX)]);
    assert_eq!(try_streak(&db, &list), None);
    // a day without a goal ends the count before its total is needed
    let list = days(&[("2023-12-31", i64::MIN, i64::MAX)]);
    assert_eq!(try_streak(&db, &list), Some(0));
}

#[test]
fn streak_chunks_combine_until_one_falls_short() {
    assert_eq!(combine_chunks(&[]), Some(0));
    assert_eq!(combine_chunks(&[(31, 31), (31, 31), (4, 31), (31, 31)]), Some(66));
    assert_eq!(combine_chunks(&[(2, 31)]), Some(2));
    assert_eq!(combine_chunks(&[(u32::MAX, 1), (1, 1)]), None);
}

#[test]
fn day_list_from_looked_up_midnights() {
    let keys = vec!["2024-01-01".to_string(), "2024-01-02".to_string()];
    let list = day_list_from_midnights(&keys, &[Some(0), Some(100), Some(250)]).unwrap();
    assert_eq!(list, vec![("2024-01-01".to_string(), 0, 100), ("2024-01-02".to_string(), 100, 250)]);
    let err = day_list_from_midnights(&keys, &[Some(0), None, Some(250)]).unwrap_err();
    assert_eq!(err.0, "invalid local datetime");
    assert!(day_list_from_midnights(&[], &[None]).is_err());
    assert_eq!(day_list_from_midnights(&[], &[Some(5)]), Ok(vec![]));
}

#[test]
fn day_list_between_day_numbers() {
    let first = chrono::NaiveDate::from_ymd_opt(2024, 2, 28).unwrap().num_days_from_ce();
    let list = day_list_between(first, first + 2).unwrap().unwrap();
    let keys: Vec<&str> = list.iter().map(|d| d.0.as_str()).collect();
    assert_eq!(keys, vec!["2024-02-28", "2024-02-29", "2024-03-01"]);
    assert_eq!(list[0].2, list[1].1);
    assert_eq!(list[1].2, list[2].1);
    assert_eq!(day_list_between(first + 1, first), Some(Ok(vec![])));
    assert!(day_list_between(LAST_DAY - 1, LAST_DAY).is_none());
    assert_eq!(day_list_between(LAST_DAY, LAST_DAY - 1), Some(Ok(vec![])));
}

#[test]
fn day_totals_of_back_to_back_days_add_up_to_the_range_total() {
    let mut db = TrackerDb::new();
    closed(&mut db, 50, 250);
    closed(&mut db, 260, 400);
    let list = days(&[("2024-01-01", 0, 100), ("2024-01-02", 100, 200), ("2024-01-03", 200, 300)]);
    let sum: i64 = get_daily_totals(&db, &list).iter().map(|t| t.total_ms).sum();
    assert_eq!(sum, get_time_range_total(&db, 0, 300).total_ms);
    assert_eq!(sum, 240);
}

#[test]
fn setting_the_same_goal_twice_changes_nothing() {
    let mut db = TrackerDb::new();
    set_daily_goal(&mut db, "2024-01-01", 30);
    set_daily_goal(&mut db, "2024-01-02", 40);
    let once: Vec<(String, i64)> = db.goal_list().iter().map(|g| (g.day.clone(), g.goal_ms)).collect();
    set_daily_goal(&mut db, "2024-01-02", 40);
    let twice: Vec<(String, i64)> = db.goal_list().iter().map(|g| (g.day.clone(), g.goal_ms)).collect();
    assert_eq!(once, twice);
}

#[test]
fn stopwatch_text() {
    assert_eq!(format_hms(0), "00:00");
    assert_eq!(format_hms(59_999), "00:59");
    assert_eq!(format_hms(61_000), "01:01");
    assert_eq!(format_hms(3_600_000), "01:00:00");
    assert_eq!(format_hms(3_723_000), "01:02:03");
    assert_eq!(format_hms(360_000_000), "100:00:00");
    assert_eq!(format_hms(-5000), "00:00");
}

#[test]
fn tray_texts() {
    assert_eq!(tray_tooltip(TimerState::Running { start_ms: 1000 }, 62_000), "Running \u{2014} 01:01");
    assert_eq!(tray_tooltip(TimerState::Paused { last_duration_ms: 3_600_000 }, 0), "Paused \u{2014} last 01:00:00");
    assert_eq!(tray_tooltip(TimerState::Empty, 0), "Paused");
    assert_eq!(tray_title(TimerState::Running { start_ms: 0 }, 5000), Some("00:05".to_string()));
    assert_eq!(tray_title(TimerState::Empty, 5000), None);
    assert_eq!(toggle_label(true), "Stop");
    assert_eq!(toggle_label(false), "Start");
}

#[test]
fn idle_is_reported_once_per_period() {
    let threshold = 300_000;
    let now = 10_000_000;
    let first = idle_check(None, true, 400_000, threshold, now).unwrap();
    assert_eq!(first.detected, Some(IdleDetected { idle_since_ms: 9_600_000 }));
    assert_eq!(first.last_fired, Some(9_600_000));
    let again = idle_check(first.last_fired, true, 430_000, threshold, now + 30_000).unwrap();
    assert_eq!(again.detected, None);
    assert_eq!(again.last_fired, Some(9_600_000));
    let later = idle_check(first.last_fired, true, 400_000, threshold, now + 120_000).unwrap();
    assert_eq!(later.detected, Some(IdleDetected { idle_since_ms: 9_720_000 }));
}

#[test]
fn idle_state_resets_when_stopped_or_active() {
    let stopped = idle_check(Some(5), false, 900_000, 300_000, 10_000_000).unwrap();
    assert_eq!(stopped.last_fired, None);
    assert_eq!(stopped.detected, None);
    let active = idle_check(Some(5), true, 1000, 300_000, 10_000_000).unwrap();
    assert_eq!(active.last_fired, None);
    assert_eq!(active.detected, None);
    assert!(idle_check(Some(i64::MAX), true, 400_000, 300_000, i64::MIN + 500_000).is_none());
}

#[test]
fn day_list_has_one_entry_per_day() {
    let list = build_day_list("2024-01-30", "2024-02-02").unwrap();
    let keys: Vec<&str> = list.iter().map(|d| d.0.as_str()).collect();
    assert_eq!(keys, vec!["2024-01-30", "2024-01-31", "2024-02-01", "2024-02-02"]);
    for (_, start, end) in &list {
        assert!(start < end);
    }
    for w in list.windows(2) {
        assert_eq!(w[0].2, w[1].1);
    }
    assert!(build_day_list("2024-02-02", "2024-01-30").unwrap().is_empty());
}

#[test]
fn day_list_reports_parse_errors() {
    let err = build_day_list("2024-13-01", "2024-01-02").unwrap_err();
    assert!(!err.0.is_empty());
    assert!(build_day_list("2024-01-01", "soon").is_err());
    assert!(try_build_day_list("2024-01-01", "2024-01-02").is_some());
}

#[test]
fn streak_as_of_a_day() {
    let db = TrackerDb::new();
    assert_eq!(streak_as_of(&db, "2024-03-01"), Some(Ok(0)));
    assert!(matches!(streak_as_of(&db, "not a day"), Some(Err(_))));
    let last = chrono::NaiveDate::MAX.format("%Y-%m-%d").to_string();
    assert_eq!(streak_as_of(&db, &last), None);
    let first = chrono::NaiveDate::MIN.format("%Y-%m-%d").to_string();
    assert_eq!(streak_as_of(&db, &first), None);
}

#[test]
fn streak_as_of_runs_across_chunks() {
    let list = build_day_list("2024-01-01", "2024-03-01").unwrap();
    let mut db = TrackerDb::new();
    set_daily_goal(&mut db, "2024-01-01", 1000);
    // the last 40 days are tracked in full, the day before them is not
    for (_, start, end) in &list[list.len() - 40..] {
        closed(&mut db, *start, *end);
    }
    assert_eq!(streak_as_of(&db, "2024-03-01"), Some(Ok(40)));
    // as of a day before the tracked run, nothing counts
    assert_eq!(streak_as_of(&db, "2024-01-15"), Some(Ok(0)));
}

#[test]
fn midnights_bound_each_day_and_the_next() {
    assert_eq!(midnight_days(10, 13), vec![10, 11, 12, 13, 14]);
    assert_eq!(midnight_days(7, 7), vec![7, 8]);
}

#[test]
fn stopping_reports_the_duration() {
    let mut db = TrackerDb::new();
    assert_eq!(stop_running_interval(&mut db, 10), Some(Err(CmdError("no interval running".to_string()))));
    begin_interval(&mut db, 1000).unwrap();
    assert_eq!(stop_running_interval(&mut db, 4000), Some(Ok(3000)));
    assert_eq!(timer_state(&db), TimerState::Paused { last_duration_ms: 3000 });
}

#[test]
fn deleting_the_running_interval_stops_the_timer() {
    let mut db = TrackerDb::new();
    closed(&mut db, 100, 200);
    begin_interval(&mut db, 300).unwrap();
    assert_eq!(remove_interval(&mut db, 1), Some(Ok(false)));
    assert_eq!(remove_interval(&mut db, 2), Some(Ok(true)));
    assert_eq!(remove_interval(&mut db, 2), Some(Err(CmdError("interval not found".to_string()))));
}

#[test]
fn refusals_have_messages() {
    assert_eq!(DbError::AlreadyRunning.message(), "an interval is already running");
    assert_eq!(DbError::NoneRunning.message(), "no interval is running");
    assert_eq!(DbError::NotFound.message(), "interval not found");
    assert_eq!(CmdError::from("x".to_string()), CmdError("x".to_string()));
}

#[test]
fn goals_replace_per_day() {
    let mut db = TrackerDb::new();
    set_daily_goal(&mut db, "2024-01-02", 10);
    set_daily_goal(&mut db, "2024-01-01", 20);
    set_daily_goal(&mut db, "2024-01-02", 30);
    let got: Vec<(String, i64)> = db.goal_list().iter().map(|g| (g.day.clone(), g.goal_ms)).collect();
    assert_eq!(got, vec![("2024-01-02".to_string(), 30), ("2024-01-01".to_string(), 20)]);
}

#[test]
fn calendar_bounds_match_chrono() {
    assert_eq!(chrono::NaiveDate::MIN.num_days_from_ce(), time_tracker::calendar::FIRST_DAY);
    assert_eq!(chrono::NaiveDate::MAX.num_days_from_ce(), time_tracker::calendar::LAST_DAY);
}

#[test]
fn day_list_stops_before_the_end_of_the_calendar() {
    let last = chrono::NaiveDate::MAX.format("%Y-%m-%d").to_string();
    let parsed = chrono::NaiveDate::parse_from_str(&last, "%Y-%m-%d");
    if let Ok(d) = parsed {
        assert_eq!(d.num_days_from_ce(), time_tracker::calendar::LAST_DAY);
        assert!(try_build_day_list("2024-01-01", &last).is_none());
    }
}

#[test]
fn tray_toggle_starts_a_stopped_timer_and_stops_a_running_one() {
    assert!(!toggle_starts(&TimerState::Running { start_ms: 5 }));
    assert!(toggle_starts(&TimerState::Paused { last_duration_ms: 5 }));
    assert!(toggle_starts(&TimerState::Empty));
}

#[test]
fn idle_time_from_tick_counter() {
    assert_eq!(idle_ms_from_ticks(None, 5_000), 0);
    assert_eq!(idle_ms_from_ticks(Some(1_000), 5_000), 4_000);
    // the counter wrapped since the last input
    assert_eq!(idle_ms_from_ticks(Some(u32::MAX - 99), 400), 500);
}

#[test]
fn streak_as_of_stops_where_a_chunk_falls_short() {
    let list = build_day_list("2023-10-01", "2024-03-01").unwrap();
    let mut db = TrackerDb::new();
    set_daily_goal(&mut db, "2023-10-01", 1000);
    // 70 full days, then one short day, then 20 full days up to the last day
    let n = list.len();
    for (k, (_, start, end)) in list[n - 91..].iter().enumerate() {
        let end = if k == 70 { start + 999 } else { *end };
        closed(&mut db, *start, end);
    }
    assert_eq!(streak_as_of(&db, "2024-03-01"), Some(Ok(20)));
    // as of the day before the short one, the 70 full days count
    let key = &list[n - 22].0;
    assert_eq!(streak_as_of(&db, key), Some(Ok(70)));
}
