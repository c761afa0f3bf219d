# forge_core

The decision core of a coding agent, with its behaviour stated in contracts and
proved by Verus.

- `wrap` lays terminal text out in lines of a given width. It breaks lines at
  whitespace, keeps the text with all its whitespace as it was written, never
  tears an escape sequence apart, and cuts only words that are wider than a line.
  No line takes more columns than it may, unless a single character does; columns
  are counted character by character, and a control character counts none, so a
  line that is measured as a whole can come out wider or narrower. It stands on `ansi` (units of text),
  `measure` (display widths), `split` and `layout`; `wrap_laws` holds what is
  true of every layout.
- `run` is a run of an orchestrator as a state machine: it says what is to be
  done next, takes what came of it, and keeps the context. `orch` holds what an orchestrator knows
  and decides; `run_laws` holds what is true of every run.
- `set_cache` sets the cache breakpoints of a request.
- `chat_request` and `theme` hold chat requests and the theme of the terminal.

`app/` connects the core with providers and their requests, tools, hooks, the
terminal and serialised requests.
