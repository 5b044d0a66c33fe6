# claude_monitor

A verified library behind a dashboard that watches coding-agent sessions:
it reads their JSONL transcripts, keeps a registry of agents and their
status (working, waiting, idle, error), groups sub-agents under their
parents, lays the agents out in a pixel office, keeps file snapshots for
diff and restore, edits the agent's `settings.json` to register HTTP hooks,
and formats what the window shows.

Layout:

- `src/` — the library, written in Verus. Every function carries a
  contract, and the laws the library promises (for instance that a
  registered hook is found again, that unregistering keeps the user's own
  hooks, that a sync never seats two characters at one desk) are public
  proof functions named `law_*`.
- `tests/` — tests of the library on concrete values.
- `app/` — a small command-line front end: file and database I/O, the
  floating-point parts of costing and animation, and serde forms of the
  library's types.
