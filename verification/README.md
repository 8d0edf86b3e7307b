# markdown_preview

Live preview of Markdown documents for an editor, as a verified library.

- `src/cmark.rs` calls the parser, `pulldown_cmark`, and hands its events on as plain values;
  `src/autolink.rs` calls `linkify` to find bare URLs.
- `src/convert.rs` turns the parser's events into the library's own events (`src/event.rs`), and
  `src/roots.rs` marks the root-level blocks among them. `src/parse.rs` makes a document of them,
  with its headings (`src/headings.rs`), its footnotes (`src/footnotes.rs`) and its metadata blocks
  (`src/scan.rs`).
- `src/blocks.rs`, `src/block_text.rs`, `src/markers.rs` and `src/layout.rs` lay out the live
  preview: the blocks that are replaced as a whole, and the inline syntax that is hidden.
- `src/live.rs` and `src/session.rs` hold what an editor decides: which blocks and folds to insert
  or to take away when its text or its selections change.
- `src/nesting.rs` states how elements lie inside each other, and that this is kept.
- `src/span.rs`, `src/order.rs` and `src/offsets.rs` are what the others rest on.

A document is modelled by its bytes. Where an event of the parser points to a range that the text
cannot be sliced by, the functions that take events return `None`; the functions that take a text
require that there is no such event, and have a `try_` variant that returns `None` instead.

What holds of every document is stated by the proof functions whose names start with `law_`.

`app/` is an editor's side of it: the buffer, the renderer, and the dialect of HTML and headings.
