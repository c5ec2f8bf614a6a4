# roses

A terminal feed reader backed by Feedbin, with its core written in Verus.

- `src/` is the verified library: the reader's state machine (`tui`:
  sources and articles columns, cursor movement, optimistic mark-read with
  undo and rollback, lazy loading of older entries, the image pre-fetch
  queue, key handling), the HTML-to-text pipeline (`html`), the reader
  pane's lines and title wrapping (`reader`), OPML export (`opml`), the
  plain-text listing (`ui`), browser resolution (`browser`), Feedbin request
  batching, bodies and error messages (`feedbin`), configuration and cache
  rules (`config`, `store`), the palette (`theme`), half-block image art
  (`images`: size checks, decoding and resampling through the `image`
  crate, runs of cells, clipping), the command line's decisions (`commands`), and the
  properties that hold across operations (`laws`).
- `app/` is the program around it: terminal drawing with ratatui, the event
  loop, HTTP with reqwest, the SQLite cache, the config file and the OS
  keychain, fetching images.
- `tests/` exercises the library on concrete values.
