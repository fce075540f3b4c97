# rust_kernel

The scheduling kernel: clock-time parsing, pairwise meeting-conflict detection, per-day minute
bitmaps, transitive prerequisite checks, and the depth-first search for conflict-free schedule
candidates. The library in `src/` is written in Verus; every function in it carries a contract
that Verus proves.

Layout:

- `src/weekly_bitmap.rs` — minute bitmaps per day code; adding blocks is refused on any shared
  minute, and removal undoes an accepted addition.
- `src/conflicts.rs` — meeting rows, `parse_time_to_minutes`, `detect_conflicts`.
- `src/prereqs.rs` — the `prereq_groups` JSON cells, the prerequisite table, and the least
  fixed point that decides whether a schedule meets its prerequisites.
- `src/search.rs` — section rows, subject filters and rebalancing, meeting tables, and the
  seeded depth-first candidate search with its merge.
- `src/schedule_stats.rs` — the integer measures a schedule is scored by.
- `src/optimize.rs`, `src/query.rs`, `src/service.rs` — request limits, the conflict-free cut,
  option ids, URL query parsing and the service's request checks.
- `src/text.rs` — trimming, sorting and joining strings.
- `app/` — the process around the library: CSV reading, the floating-point scores and Pareto
  cut, the HTTP endpoints, the `Kernel` service handlers and telemetry.
- `tests/` — tests of the library.
