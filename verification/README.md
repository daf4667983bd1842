# atlas_core

The domain rules of Atlas, a backend for tasks, habits, chores, people and
calendar enrichment shared within and across households, written in Verus
and proved against their contracts.

## Layout

- `src/` — the verified library.
  - `tasks/` — goals, progress evidence and outcomes, schedules and slots,
    decimals, task commands, successors, timers, rotas, dependencies and the
    preview walk, lifecycle ordering and views.
  - `calendars/` — iCalendar parsing and recurrence expansion, anchors,
    reconciliation of anchored occurrences, feed refresh and reminders.
  - `people.rs`, `households.rs`, `policy.rs` — identities, merging,
    membership and the sharing policies with their defaults.
  - `sync.rs`, `sync_cursor.rs`, `receipts.rs`, `storage.rs` — page requests,
    signed cursors, change ordering and publication, operation receipts and
    store settings.
  - `text.rs`, `time.rs` — text and calendar arithmetic shared by the rest.
- `tests/` — executable tests of the library.
- `app/` — the parts of the store that touch SQLite or PostgreSQL directly:
  connecting, the schema baseline, restore preparation, devices, the
  removal of expired state, household membership changes, JSON wire
  forms and the retry of sync pages.
  The SQL of the other store operations is not part of this crate; the
  library holds their decisions as step functions that a store runs
  between its reads and writes: how a task command or a batch of
  resource commands begins (`tasks::commands::command_start`,
  `apply_start`), what a completed occurrence leads to
  (`tasks::successors::successor_plan`), a change of household
  membership (`households::membership_step`), which anchored occurrences
  lost their context (`calendars::reconcile::unavailable`), where a sync page resumes
  and how it ends (`sync::sync_start`, `sync::delta_reach`,
  `sync::batch_changes`, `sync::sync_finish`), and how a calendar refresh
  commits and what it writes (`calendars::refresh`: `refresh_commit_step`,
  `import_writes`, `settle_writes`, `settle`).

Calls into outside crates (UUIDs, SHA-256 and HMAC, time zones, URL and
iCalendar parsing) go through small trusted wrappers whose contracts are
stated beside them; everything else is proved.
