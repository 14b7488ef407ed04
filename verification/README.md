# task_tracker

A desktop task tracker: tasks with a recurrence rule, their dated instances,
a calendar view, a searchable task list and a form for new tasks.

- `src/` is the verified core (Verus):
  - `text` — character-level string helpers: equality, `split(':')`, decimal
    parsing as `str::parse` does it, lexicographic order, substring search.
  - `calendar` — dates as day numbers, and the calls into `chrono` behind
    trusted wrappers.
  - `recurrence` — the rules `none`, `days:K`, `months:M`, `nth:N:Day`, the
    due dates they generate, and the laws about them.
  - `task` — task records, status and overdue decisions, the new-task form.
  - `listing` — which tasks the list shows and in what order.
- `app/` is the Dioxus front end and the SQLite store (`rusqlite`).
- `tests/` run the core against the real `chrono`.
