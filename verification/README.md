# acdc_parser

The parts of an AsciiDoc parser that decide what a source says before and beside
its grammar, written in Rust and verified with Verus:

- `preprocessor`: decoding the bytes of files, line endings and trailing blanks,
  attribute lines, conditional directives, and directives that ask for the content of
  other files. What comes from outside is asked for (`Request`) and handed back
  (`Answer`).
- `table`: reading the body of a table into rows of cells, in each of its forms, with
  the position of every cell in the source; the limits on hostile tables; and moving
  the locations in a cell past the backslashes of escaped separators.
- `validate`: duplicate anchors and cross-references that lead nowhere.
- `options`, `attributes`, `file_resolver`, `envelope`, `model`: what the others work
  on, and what an embedder hands in and gets back.

Each function states what it returns; public proof functions named `law_..` state what
holds between them. Two calls into other crates are taken on trust, those into `csv` and
`encoding_rs`, and three into the standard library: `String::push`, `str::from_utf8` and
`Arc::clone`. The doc comments on `read_csv_records`, `decode_labelled`, `is_valid_utf8`,
`share` and the specification in `text` say what is believed of them.

`app/` binds the library to JavaScript and to the file system. It is not verified.
