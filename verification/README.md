# NowUI

A retained-mode UI toolkit with a verified core.

* `src/toolkit` — the node arena, styles and their tokens, layout, painting as a
  list of operations, text fields, dates and times, and putting pixels on a surface.
  Geometry is written against a number trait, so that it is the same computation in
  whole pixels and in machine floats.
* `src/assets` — the asset archive, pictures, icons and the generation of the icon
  archive.
* `src/lsp` — the tokenizer, positions, and what a language server answers.
* `src/derive.rs`, `src/state.rs` — what the state derive generates, and what it
  reads and writes.
* `src/designer` — the visual designer: paths, project tree, tabs, editing,
  inspecting, previewing, and the whole as a state machine that asks for files and
  documents and is told what came of it.
* `app` — the programs around it: windows, files, fonts, standard input and output.
* `tests` — what the library does on concrete values.
