# time_sync

The bookkeeping of a desktop time tracker, verified with Verus.

- `src/tray.rs`: the running tasks shown in the tray (at most three, none
  twice) and the tray's title.
- `src/status.rs`: task statuses and the text stored for each.
- `src/clock.rs`: moments read from RFC 3339 text (through chrono) and the
  whole seconds between two of them.
- `src/sessions.rs`: opening and closing work sessions, closing those left
  open by the previous run, and adding up tracked time.
- `src/tasks.rs`: rows for new tasks and sessions (fresh UUIDs), what a change
  of status does to the tray and the sessions, and tasks grouped by the day
  they were created, latest day first.
- `src/text.rs`: comparing and ordering texts, and writing numbers in decimal.

`app/` holds the database access (SQLite through rusqlite and r2d2) and the
commands that call the library; `tests/` runs the library on concrete values.
