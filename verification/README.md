# rnote_core

The logic of a note taking application, written and verified with Verus: lists in texts, the brush,
recognized shapes, the ruler, and a native window frame.

- `src/` is the library. Everything in it is proved to meet its contracts, apart from what it takes from
  `String::push` and from `unicode-segmentation`.
  - Lists: `syntax` reads list items, `softbreak` the automatic line breaks, `edit` and `attrs` change
    texts and keep positions and attributes in place, `renumber` numbers lists, `reflow` lines up
    wrapped lines, and `lists` handles typing. `numbering`, `plain`, `hanging`, `typing` and `look`
    hold the laws on what these do together.
  - `brush` decides what the pen does, `shapes` which shape a stroke is, `ruler` what strokes and
    angles snap to and which ticks there are, and `frame` what becomes of window messages. `body` says
    which points of the plane belong to a ruler when positions are measured exactly.
  - `grapheme` wraps the search for boundaries of user-perceived characters.
- `tests/` runs the library.
- `app/` is the ordinary Rust around it: geometry, drawing, text layout, the canvas and the window.

Texts are measured in bytes. What needs floating point numbers, a text layout or a running window is
measured by the caller and handed in; the library decides what it means.
