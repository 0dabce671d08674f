# harbor

A file organizer daemon: it watches folders and moves or copies the files
that land there according to rules (glob, MIME type, size), with date
placeholders in destinations, deduplicated names and a summary table.

The decisions are a Verus-verified library under `src/`; `app/` holds the
program around it (argument handling, reading the TOML file, file system
watching, moving files).

- `src/config.rs` — how `[defaults]`, `[[folder]]` and `[[folder.rule]]`
  settings combine; size settings such as `500MB`.
- `src/vars.rs` — `$VAR` / `${VAR}` expansion in paths.
- `src/rules.rs` — compiled rules, first match wins (size, then glob, then
  MIME), date placeholders in destinations.
- `src/calendar.rs` — the Gregorian calendar behind `{year}`, `{month}`,
  `{day}`.
- `src/mime.rs` — MIME detection by signature bytes, then by extension.
- `src/daemon.rs` — which watcher reports are queued, what the daemon does
  with a reported path, and waiting for a file to settle.
- `src/dispatch.rs` — the daemon's main loop as a state machine: batching,
  flushing, one worker per path.
- `src/table.rs` — the sorted summary table.
- `src/files.rs` — destination names and `name_1.ext` alternatives.
- `src/cli.rs` — the command line.
- `src/path.rs`, `src/text.rs` — paths and text as character sequences.
- `src/glob.rs` — the `globset` crate behind a small trusted interface.
