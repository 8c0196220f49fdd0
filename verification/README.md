# protomatrix

The core of an editor for proto-matrix PCBs (a prototyping board whose pad columns are joined to
matrix rows by solder jumpers), written in Verus and verified.

- `src/kicad9/` — KiCad 9 footprint reading: an s-expression reader whose result, errors and byte
  offsets included, is proved equal to a grammar given as spec functions; the text parts of a
  footprint (header fields, properties, pad names, kinds and layers).
- `src/router.rs` — the autorouter: nets from pad-to-pad connections (union-find, proved to give
  exactly the connected components, in a unique order), rows for nets (pins first, then free rows;
  no two nets share a row), and the closed jumpers.
- `src/board.rs` — editing rules: column keys and labels, moving groups of columns with their
  connections and metadata, disconnecting a column, keeping net names, colors and row pins on
  canonical keys, and the route-then-migrate step.
- `src/layers.rs`, `src/protomatrix.rs` — layer classes and colors, board element types, pointer
  state and the net palette.
- `src/strmap.rs`, `src/text.rs` — an ordered string-keyed map and text helpers.
- `app/` — the egui program: drawing, hit-testing and footprint geometry (floating point), file I/O
  and the board file format.
