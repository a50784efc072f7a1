# gpt

A verified library for GPT partition tables.

- `src/` holds the rules: how a table is opened, where a partition goes, which
  number it gets, how headers are asked for, and in which order a table is
  written. It is proved with Verus; `*_laws.rs` state what holds across
  operations. Four small functions are trusted, with their contracts believed:
  `random_guid` draws an identifier with the `uuid` crate, `sort_numbers` sorts,
  and `io_error_from_text` and `io_error_text` make and show an I/O error.
- `tests/` runs the library on concrete tables.
- `app/` connects it to real devices. It performs the reads and writes that the
  library hands out one by one. `TableFormat` stands for the bytes of headers and
  entries.
