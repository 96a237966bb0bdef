# beads_server

The server behind a kanban board for [beads](https://github.com/steveyegge/beads)
projects: a store of projects, tags and cached bead counts, and an HTTP API
that reads and writes the beads of each project.

## Layout

- `src/` — the library, verified with Verus:
  - `db.rs` — the project/tag store with the schema's constraints (unique ids
    and paths, links and counts that cascade with their project), listings,
    cached counts, and the rows it is saved and restored from.
  - `beads.rs`, `links.rs`, `epic.rs` — beads, their post-processing (parents,
    children, dependencies) and the epic statuses computed from children.
  - `sources.rs` — the text of the `bd` CLI output, the JSONL export and the
    Dolt server files; merging CLI beads with JSONL comments; counts per status.
  - `recompute.rs` — the epic recomputation over the JSONL export: which
    lines are kept and read, and the lines written back.
  - `reading.rs` — which source a beads read tries next, and what it answers.
  - `requests.rs` — checks, `bd` arguments and answers of the create and update
    endpoints.
  - `api.rs` — error statuses and the project listing of the project endpoints.
  - `laws.rs` — properties that span operations.
  - `text.rs`, `external.rs` — string helpers, and the calls into uuid, chrono,
    serde_json and serde_yaml.
- `app/` — the HTTP server (axum), the SQLite file (rusqlite), the `bd`
  process, files, and the JSON shapes (serde).
- `tests/` — tests of the library.
