# todoist_nvim

The core of a Neovim plugin that shows Todoist tasks as a Markdown buffer and sends the
edits back, verified with Verus.

- `src/` — the verified library:
  - `text` — character-level string work (whitespace, searching, decimal digits);
  - `models` — API records, the snapshot (`TaskMap`, keyed by task id), buffer tasks,
    sync operations and the sync report. The snapshot table is a `Vec` of `(id, task)` pairs
    whose keys are kept unique, rather than a `HashMap<String, _>`: with `String` keys,
    vstd's `HashMap` specification gives a proof nothing to go on about what a lookup
    returns after an insert, and every sync contract speaks of such lookups;
  - `outline` — the project → section → task outline as Markdown, in two styles;
  - `fetch` — the tagged outline and the snapshot taken at fetch time;
  - `plain` — the plain outline of the standalone viewer and its HTTP error texts;
  - `parser` — reading an edited buffer back into tasks, with warnings;
  - `readback` — the proof that the page `fetch` prints reads back as the tasks it shows;
  - `sync` — the diff between buffer and snapshot, the requests it leads to, how their
    outcomes are counted, and the snapshot after a sync;
  - `api` — status handling, pagination and dates for the Todoist API v1.
- `app/` — the binary: HTTP with `reqwest`, JSON with `serde`, the snapshot file, the
  command line.
- `tests/` — tests of the library.
