# ptc — a verified paper-trading competition engine

Order management against a mock broker, per-participant portfolios and P&L,
and deterministic daily and overall rankings, written in Verus: every function
of the library carries a contract that Verus proves.

## Layout

- `src/` — the verified library.
  - `money`, `ids`, `time`, `instrument`: exact fixed-point amounts, strict
    identifiers and calendar days.
  - `lifecycle`, `order`: the order state machine and cancel-replace.
  - `position`, `portfolio`: cost basis, realized and unrealized P&L, marks.
  - `broker`: the broker port and a seeded mock broker.
  - `scoring`: daily results, leaderboards, the compounded ladder.
  - `command`, `event`, `engine`: decide, journal, apply; replay from the log.
  - `store`, `wire`: the event-log port, an in-memory log, the stored shape.
  - `service`: the write-ahead application around one engine and one log.
  - `dto`, `problem`, `narrate`: request parsing, response shapes, problem
    reports, and the narrated journal.
- `tests/` — the test suite, run against the compiled library.
- `app/` — the HTTP server (axum), the SQLite log, configuration, and the
  scripted demo: the parts that do I/O.

Laws the library states and proves are the `law_*` proof functions, among
them: accepted commands always apply, journals compose so a replay reproduces
the live run, a close sets the baseline the next day is measured from, closed
days are immutable, a stored event (a day close included) reads back as itself, re-appending a batch changes
nothing, ranking ignores input order, the book adds up, and amount text reads
back to the same amount.
