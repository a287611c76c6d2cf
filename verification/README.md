# time_tracker

A stopwatch and time tracker for the desktop. Intervals of tracked time (start
and optional end, in unix milliseconds) and daily goals are kept in two
tables; the tracker answers what the timer shows, the total of a range and of
each day, the goal in force on each day, and the streak of days that met their
goal.

- `src/` is the verified library (Verus). `store` holds the tables and the
  changes made to them, `totals`, `daily` and `streak` read them, `calendar`
  builds the day lists of reports with chrono, `clock_text` writes the tray's
  stopwatch text, `idle` decides when to report that the user was away, and
  `commands` holds the decisions behind the start/stop and delete commands.
  `laws` proves what holds across these functions.
- `app/` is the shell around it: SQLite storage (rusqlite), the commands the
  window and the tray call, the clock and the idle watcher.
- `tests/` runs the library on concrete cases.
