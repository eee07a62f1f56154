# liteparse

Extracts positioned text from PDF pages. `src/` is a Verus library: its functions are
verified against their contracts, but for the few calls into hayro and std named below.

- `document`: opening a document, choosing pages, the images of a page
- `glyph`: what a page draws, glyph by glyph
- `extract`, `segment`, `normalize`, `dedup`: from glyphs to text items
- `scalar`, `rounding`: IEEE 754 single precision on bit patterns, proved correctly rounded
- `geometry`, `chars`, `text`, `types`, `error`: the rest of the vocabulary

PDF parsing is done by hayro. The trusted declarations about it stand in `document`: the type
`Pdf`, `Pdf::new_with_password`, `Pdf::pages` and `Page::render_dimensions`. Two are about std:
the type `std::io::Error` in `error`, and `String::push` in `text`.

`app/` reads files, runs hayro's interpreter over a page and prints JSON. It is ordinary Rust.
