# tali_layout

Verified layout decisions of the Tali formatting mode for Python source:

- `expr_list`: column alignment of rectangular nested list and tuple
  literals. Cells are measured, columns get a left-aligned or decimal-point
  layout, and the literal is written as a sequence of pieces (delimiters,
  padding, cells, line breaks). The contracts state exactly which literals are
  aligned, and proof functions show that every padded cell fills its column,
  that decimal points line up, that every leaf row is written to the same width,
  and that ragged, unintended or multi-line literals keep the standard layout.
- `tali`: horizontal alignment of `=`, annotations and trailing comments in
  runs of consecutive one-line statements, and the line-length test for
  comments.
- `ast`: the parts of a parsed module that these decisions read.
- `text`, `width`: byte-level searching in UTF-8 source and display width of
  formatted text.

Run the proofs with Verus on `src/lib.rs`; `tests/` holds ordinary Rust tests.
