# fits_table

Binary tables of FITS files: reading and writing their rows, columns and cells,
those of fixed width and those of variable length in the heap, and putting
columns in and taking them out in place.

- `src/` is the library. It works on bytes and plain values, and all of it is
  verified with Verus. A header comes in as its keywords, an array as its shape,
  its element type and its bytes, and what is to be done to a file goes out as
  offsets and bytes.
- `app/` is the Python side: it takes numpy arrays and Python keys apart, reads
  and writes the file, and turns errors into exceptions. Columns with a general
  TSCAL or TZERO are scaled there, as that is floating-point arithmetic.
- `tests/` runs the library on concrete tables.

## Modules

| Modules | What they hold |
| --- | --- |
| `bytes`, `text` | byte order, big-endian integers, bits; characters and numbers in texts |
| `columns`, `keywords` | columns, and how the keywords of a header describe them |
| `fields`, `cells`, `heap` | array types; cells of fixed width and in the heap, as values |
| `rows`, `runs`, `read` | which rows are read, in which pieces, and into which places |
| `create`, `header`, `cards` | new columns and headers; the cards of a header as texts |
| `encode`, `input`, `strips` | what is given for a table, and the rows that it becomes |
| `vla`, `heapwrite` | what is given for cells in the heap, and the heap that it becomes |
| `layout`, `plans` | where rows and heap stand in the file; whole operations |
| `assign`, `keys` | overwriting rows, columns and cells; the keys that name them |
| `edit`, `shuffle`, `reshape`, `repack` | columns put in and taken out; a heap without orphans |
| `roundtrip`, `heaptrip`, `headtrip` | values, cells and headers that are written read back |
| `table`, `outcomes`, `heapoutcomes`, `undo` | a table as cells: what reads give after writes, added rows and assignments; edits that undo each other |
| `iter`, `repr`, `error` | walking through rows; a table in words; what can go wrong |
