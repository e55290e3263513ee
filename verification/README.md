# restty

`restty` turns familiar command output (`ls -la`, `ps aux`, `df -h`, `git
status --short`, …) into compact tables that fit the terminal's width, and
leaves the bytes alone whenever it cannot format them safely.

The library in `src/` is written in Verus; every function carries a contract
and is proved against it:

- `parser/` — the built-in, `jc`-backed and generic parsers, and the registry
  that picks the first one that takes the input;
- `render` — column selection by width and priority, cell formatting, borders
  and the text renderer;
- `fit` — why every line `render` draws fits the width asked for
  (`lemma_rendered_lines_fit`);
- `lib.rs` — the decision to format or pass bytes through, and what a run
  writes (`lemma_declined_runs_pass_bytes_through` states the safety
  contract);
- `config`, `terminal`, `cli`, `shell` — settings, terminal capabilities,
  command-line options and the shell wrappers;
- `cache` — comparing two parsed views and the text form of cache entries
  (`lemma_entry_round_trip`: an entry reads back as written);
- `live`, `tui` — what the full-screen viewers show and what each key does;
- `structured` — JSON, CSV and YAML output; `number`, `text`, `model` — the
  shared pieces.

`app/` holds the `restty` program: argument handling, files, processes, the
clock and the ratatui/crossterm screen. It calls the library for every
decision.
