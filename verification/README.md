# rtlens

A text engine that makes right-to-left terminal output readable: it takes raw captured
text (Persian prose mixed with code, paths, boxes and tables), cleans it, splits each
line into frame and content, resolves a base direction per line, recovers tables,
rejoins hard-wrapped paragraphs and isolates inline code runs. The result is a `Doc`
that can be rendered to HTML or copied back as plain, bidi-safe or markdown text.

The library is written in Verus: every function carries a contract over a mathematical
view of its data, and properties that span functions are stated and proved as `law_*`
proof functions next to the code they are about, or as clauses of the function they are
about (`process` promises that its document copies bidi-safe as it copies plain, line for
line up to trailing blanks). Two properties are not stated: that unwrapping twice changes
nothing, and that Persian folding twice changes nothing beyond a premise on the
normaliser. Both rest on facts about every possible string (that widths add up across a
space, that NFKC output is stable under NFKC), and the outside crates can only be asked
about the strings actually passed to them. A copied framed table is proved square in the
columns its padding measures.

The desktop shell around the engine (the Tauri setup, tray menu, global hotkey, window
management, the platform capturers and the editor connection's sockets and threads) is not
part of this repository. The decisions it makes (settings, capture outcomes, which
windows to attach to, the editor protocol) are in `src/shell/`, for a shell to call.

## Layout

- `src/text.rs`, `src/width.rs` — characters, trimming, splitting, numbers; display
  widths as the `unicode-width` crate measures them.
- `src/sanitize/` — escape removal and cursor replay (`ansi`), Persian orthography
  (`normalize`), paragraph unwrapping (`unwrap`).
- `src/bidi/` — frame/content split (`gutter`), code-run segmentation (`segment`),
  direction resolution (`direction`).
- `src/table.rs` — table detection: delimited and whitespace-aligned grids, rules,
  frames, continuation lines.
- `src/lib.rs` — the pipeline, `process`.
- `src/model.rs` — the document model and its chunks.
- `src/copyback.rs`, `src/render.rs` — clipboard text and HTML.
- `src/shell/` — the decisions of the desktop shell: settings, capture outcomes, window
  manager output, and the editor integration's bookkeeping and protocol parsing.
- `app/` — `rtlens-dump`, a command-line inspector: stdin in, HTML, text or JSON out.
- `tests/` — executable tests of the library.

Calls into outside crates (`regex`, `unicode-bidi`, `unicode-width`,
`unicode-normalization`, `strip-ansi-escapes`) go through small trusted wrappers whose
contracts name what the crate returns; everything around them is verified.
