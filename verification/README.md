# rvalues

A stream editor for CSV data, whose logic is a library verified with Verus.

- `src/` is the verified library. Each command's work on rows, fields and
  lines is a function with a contract over sequences of characters: CSV,
  delimiter-separated, fixed-width and multi-line records, XML and SQL
  output, dates, the expression language's lexer, parser and text
  functions, and the searching, editing, reshaping, splitting, merging,
  summarising and validating commands. Properties that span several
  functions are stated as proof functions (reading back what was written,
  spreading undoing flattening, aligned table columns, keys written once).
- Calls into `regex`, `chrono`, `rand` and `roxmltree` (which parses the
  XML that `from_xml` reads) stand behind small trusted wrappers whose
  contracts say what the crates promise.
- `app/` is the command-line program around the library: argument
  handling, reading and writing files, and what computes with
  floating-point numbers (arithmetic in expressions, numeric sorting,
  money and `printf` formatting, averages and medians).
- `tests/` runs the library on concrete inputs.
