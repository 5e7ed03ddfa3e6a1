# gemini_browser

A terminal browser for the Gemini protocol, written as a Verus library with a thin
program around it.

- `src/` is the verified library:
  - `gemtext.rs` parses gemtext into typed lines (`gemtext` is the model of the format);
  - `client.rs` decides what a request needs and what a response means (redirects,
    errors, success), leaving the network work to the caller;
  - `input.rs` is the browser's state machine: its reaction to keys and loaded pages,
    each stated as a function on the model `BrowserView`;
  - `ui.rs` lays text out: wrapping, cutting to a width, the rows of a page, the header,
    footer, bookmark list and help screen;
  - `paths.rs` decides where the bookmarks file lives;
  - `domain.rs` holds the data types, `text.rs` character-level helpers;
  - `urls.rs`, `width.rs` and `decode.rs` reach the `url` and `unicode-width` crates and
    `String::from_utf8_lossy`; their results are named, not restated;
  - `laws.rs` proves properties that span several operations.
- `app/` is the program: pancurses drawing, key reading, TLS connections, threads and
  bookmark files.
- `tests/` runs the library on concrete values.
