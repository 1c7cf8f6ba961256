# cards_core

Turns folders of card images (`front/` and `back/`) into printable PDF sheets for
double-sided printing, with cutting guides. The logic is written in Verus and proved
against its contracts.

## Layout

- `src/` — the verified library
  - `writer.rs`: `CardWriter` (grid size 1..=20) and `CardImage`
  - `layout.rs`: grouping cards into `side` x `side` pages and mirroring back pages
  - `plan.rs`: the page plan (front and back pages interleaved, the last back card
    repeated for unmatched fronts) and the front/back pairing law
  - `document.rs`: decoding the placed images into a `printpdf` document
  - `guides.rs`: the cutting guides of a page grid
  - `images.rs`: image file names, counting listed images, sorting by name
  - `archive.rs`: reading card images out of a ZIP archive held in memory
  - `gui.rs`, `web.rs`: the state of the desktop window and of the browser page
  - `error.rs`: `CardsError` and its messages
- `tests/` — tests on concrete values
- `app/` — the command-line program: file I/O, argument parsing, and drawing the
  pages in PDF points (floating point)
