# janim_backend

The native backend of JAnim, with its logic written in Verus and proved
against its contracts.

- `src/` is the verified library:
  - `bitset`, `word_bits`: sets of node indices kept as words from an offset;
  - `cache`: a cache that knows when it is being computed, for recursive
    computations;
  - `registry`: the relation registry, which keeps the parent/child links
    between items, their ancestor and descendant sets, and the flags of
    computed values, and reports an error when new links close a cycle
    (the links stay);
  - `gui`: the timer flags and menus of the viewer, the palette slots of
    its debug labels, and the layout of its time labels (stacking labels
    that overlap in time into layers, and their offsets and heights);
  - `locales`: moving finished translations out of a table of pending ones.
- `tests/` runs the library on concrete values.
- `app/` is the Python extension module and the viewer's drawing around the
  library: pyo3 classes, numpy computations, egui rendering, threads and
  files.
