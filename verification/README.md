# pic_library

The rules of the PIC photo library, written in Verus and proved against
their contracts: which files are photos and in which order they are listed,
how the grid is cut into folder sections and chunks, how dates become
section headings, how network share addresses are normalized and listed,
how the viewer shares and bounds its decodes, and how its texture caches
evict.

- `src/` is the verified library. Each module opens with a line on what it
  holds; public proof functions (`lemma_*`) state the laws that relate its
  operations.
- `tests/` runs the library on concrete values.
- `app/` is the GTK window around it: widgets, the folder walk, and the
  floating-point geometry of the viewer and the grid.
