# yapm

A small PDF toolbox (merge, split, extract, delete and reorder pages,
compress) with a command line and a GTK window.

- `src/` is the library, verified with Verus: the command-line reading, the
  page plans of each command, the names of the files written, the checks of
  the save path typed in the window, the moves in the window's lists and
  viewer, the plan of a merge and the merged document put together from it
  (`src/assembly.rs`: its object ids, the page tree root's `/Kids` and
  `/Count`, each page's `/Parent`, the catalog and the trailer's `/Root`
  are stated; which pages `lopdf` then reads from that tree is not). The `lopdf` documents it reads and writes are reached
  through small trusted wrappers in `src/pdf.rs` and `src/assembly.rs`,
  whose contracts state what `lopdf` does.
- `app/` is the program around it: argument handling, file I/O, page
  rendering (poppler and cairo), zip archives, the GTK window, and the
  bookmarks and outline of a merged document (their colour is a float).
- `tests/` runs the library on concrete values, `lopdf` documents included.
