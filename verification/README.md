# scout

Rank open-source issues worth contributing to. scout reads a watchlist
of GitHub repositories, fetches their open issues, drops the ones a
contributor should not pick up (pull requests, excluded labels, stale
issues, issues recently taken, issues with an open PR or a pending
maintainer discussion or a Copilot assignment), scores the rest with a
weighted sum of eight heuristics, and prints a ranked table.

## Layout

- `src/` is the library, verified with Verus. It holds every decision
  the program makes: the body, label, comment and timeline classifiers
  and the factors they add up to; the timestamp reader and writer; the
  watchlist parser; the ledger reader and the cooldown index; the
  planner; the ranking order; the table renderer; the `Link` header
  parser and the fetch walks' steps; and the default file locations.
  Each public function states its result exactly in its `ensures`,
  and the properties that span functions stand as proof functions
  (reading back a recorded take, merging ledgers, the uniqueness of a
  parsed watchlist, the timestamp round trip, and others).
- `app/` is the command-line program: argument parsing, the TOML
  config, the HTTP fetches, file and clock access, the floating-point
  score, and JSON output.
- `tests/` exercises the library from outside.
