# alfred

The logic of a raid assistant for cleric Complete Heal chains: it reads
EverQuest chat lines, keeps the cleric and rampage rotations, their clocks and
warnings, records chain sessions, and scripts demo raids. Every function in
`src/` is verified with Verus against a contract stated over mathematical
models of its inputs and results.

## Layout

- `src/text.rs` — character-level helpers (case folding, digits, searching)
  with their specifications.
- `src/parser.rs` — chat lines, CH / RCH macros and the guild tag.
- `src/command.rs` — the `!` chain commands.
- `src/chain.rs` — a chain: seats, tanks and their ranges, clocks, warnings
  and the snapshot the panels draw from; times are integer milliseconds.
- `src/engine.rs` — log lines routed to the CH and rampage chains.
- `src/report.rs` — chain sessions and missed turns.
- `src/watch.rs` — finding the EverQuest folder and log, and the decisions of
  the log-watching loop.
- `src/config.rs` — `config.ini` parsing and the chain tag.
- `src/demo.rs` — scripted demo scenarios.
- `app/` — ordinary Rust around the library: file and directory I/O, the
  watcher thread, serde shapes for the UI, and the report scoring, which is
  floating point.
- `tests/` — the library's tests.

Calls into `regex` and `dirs`, and the wall clock, go through small trusted
wrappers in `src/` whose contracts say what the outside function promises.
