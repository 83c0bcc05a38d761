# cleaning_bot

A Matrix bot that hands out cleaning turns in a shared house: a turn order for every group, plans
for the weeks ahead, swaps, takeovers, absences, reminders, calendar feeds, a printable plan and
statistics.

- `src/` is the library, verified with Verus: calendar weeks, rhythms and shifts, the event log
  and its effect on the state (`journal`), what every event keeps (`invariants`) and what
  replaying the log gives (`replay`), the rotation, every command with its reply, the plan message
  and its reconciliation, calendars (`ical`), the printable plan (`pdf`), statistics, and the
  check and description of a saved state.
- `app/` is the program around it: the Matrix account, the state file, the HTTP server of the
  calendar feeds, typesetting, and the figures that are computed in floating point.
- `tests/` runs the library.

Every function that reads a clock takes the day as an argument or has a sibling that does. A turn
order is never changed by hand: it advances when turns are planned, and what has been planned
stays as it is unless somebody changes it by name.
