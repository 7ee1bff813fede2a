# taskforge

A cron-like task planner. Tasks are described in a TOML file (a shell
command, a schedule such as `*/15 * * * *`, `@daily` or `@every 5m`, a
timeout and a retry policy); the program lists them, shows when they run
next, runs them on demand or as a daemon, keeps a JSON-lines history of
their runs and reports on their health.

## Layout

- `src/` — the library, verified with Verus:
  - `text.rs`: characters, trimming, splitting, decimal numbers;
  - `time.rs`: durations and local date-times (snapshots of chrono's);
  - `scheduler.rs`: the cron-field and schedule parser, matching, the
    search for the next occurrence, descriptions;
  - `registry.rs`: task configurations, tasks and the registry;
  - `executor.rs`: retry decisions and the daemon's run plan;
  - `history.rs`: run counts, latest starts, chronological order, health;
  - `cli.rs`: countdowns, listings, indentation, lateness.
- `tests/` — tests of the library.
- `app/` — the program: command line, configuration file, processes,
  threads, history files.
