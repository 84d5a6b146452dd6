# binparse_cli

A library for describing binary file formats in YAML, parsing files with such
a description, and working with the result: patching fields, comparing two
files, filtering and exporting the parsed tree, compiling a description to a
compact binary form and loading it back, and instantiating templates of
descriptions with parameters. The library is written in Verus: each function
states its result in its contract, and Verus proves the code meets it.

## Layout

- `src/` – the verified library.
  - `dsl.rs`, `yaml.rs`, `formats.rs` – descriptions, read from YAML, and the
    built-in ones; `check_circular_references` finds cycles of struct
    references.
  - `parser.rs`, `expr.rs` – parsing data by a description; offset, length and
    condition expressions (evaluated with `evalexpr`).
  - `patch.rs` – planning a patch: fields found by path, new values encoded,
    checksums recomputed.
  - `bfmt.rs`, `bfmt_load.rs`, `bfmt_roundtrip.rs` – the compiled form, its
    loader, and the round-trip laws between them.
  - `template.rs`, `instance.rs`, `instantiate.rs` – templates, their
    inheritance, parameters and instantiation.
  - `diff.rs`, `stats.rs`, `filter.rs`, `export.rs`, `display.rs`,
    `validate.rs` – reports over parsed trees.
  - `viewer.rs` – the state and key handling of the terminal viewer.
  - `cli.rs` – the commands and options the program takes, as plain values.
  - `checksum.rs`, `bytes.rs`, `text.rs`, `numfmt.rs`, `intparse.rs` – helpers.
- `tests/` – tests of the library.
- `app/` – the command-line program: argument handling, files, the terminal,
  JSON/CSV output, and whatever needs floating point (reading float values
  for a patch, rates and percentages).

Calls into outside crates (`crc`, `adler`, `evalexpr`, `hex`, `serde_yaml`) and
a few std functions stand behind small trusted wrappers whose contracts say
what the outside code does.
