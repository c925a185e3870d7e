# keyence_integration

The verified core of a production-line station that watches the CSV log
folder of a Keyence camera, parses each new scan line (sequence number,
date-time, inspection verdicts, product QR serial, production order) and
writes the scans to a PostgreSQL staging table.

- `src/` — the library, verified with Verus: line parsing (`parser`,
  `text`, `calendar`, `digest`, `models`), per-file read offsets
  (`state_store`), splitting newly appended bytes into complete lines
  (`watcher`), the decisions of a polling pass and the dashboard status
  (`poll`), settings (`config`) and the staging-table SQL (`db`).
- `tests/` — tests of the library.
- `app/` — the Tauri program around it: file and database access, the
  polling loop, JSON persistence and the UI commands.
