# idm_rust

A segmented download engine with pause and resume, verified with Verus.

- `src/downloader/` — byte-range splitting, per-segment progress
  (`SegmentState`, `DownloadState`), URL-to-filename extraction, and the
  decisions a running download takes: checking the HEAD response, resuming
  or starting fresh, which segments to fetch, the `Range` header, recording
  chunks, and how the awaited segment tasks end the download.
- `src/desktop/` — the desktop front end's registry of downloads (ids,
  pause, resume) and the integer progress bookkeeping behind its events.
- `src/text.rs` — decimal formatting and ASCII case-insensitive comparison.
- `app/` — the command-line program and the I/O around the engine: HTTP
  requests, the output file, the JSON state file, progress bars, the Tauri
  shell.
