# liteparse

Layout logic for turning text extracted from PDF pages into plain text and
Markdown, written in Verus: each function states its behaviour in
`requires`/`ensures` and Verus proves it.

## Layout

- `src/` — the verified library.
  - `text.rs`: whitespace classes, trimming, whitespace collapsing.
  - `lists.rs`: list-marker recognition.
  - `paragraphs.rs`: de-hyphenating joins, paragraph accumulation and
    paragraph continuation.
  - `headings.rs`: captions, structure-tree roles, outline matching, bold
    body-size and numbered bold headings.
  - `sizes.rs`: body font size and the heading-size levels.
  - `repetition.rs`: running header/footer detection.
  - `classify.rs`: the per-line block decision and the blocks it leaves open.
  - `blocks.rs`: assembling a page's blocks (headings, paragraphs, code,
    list items, non-text breaks) from its classified lines.
  - `extract.rs`: which PDF characters become text, how they group into
    segments, and which pages are extracted.
  - `output.rs`: plain-text renderings of a document.
  - `laws.rs`: properties proved over the specifications above.
  - `stdlib.rs`: the trusted specifications of a few `std` string and
    character operations.
- `tests/` — tests run against the compiled library.
- `app/` — unverified glue: floating-point page geometry (bands, gaps, font
  sizes, rotation), the character walk of a PDF text page and JSON output.
