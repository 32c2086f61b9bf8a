# jq, verified

A small jq-like tool for JSON: it reads a JSON text, selects a part of it with a
filter expression (`.`, `.field`, `.field.sub`, `.field[0]`, `.[2]`), and prints the
result compact or pretty, with keys sorted or not, indented by spaces or tabs.

The library under `src/` is verified with Verus:

- `json_parser`: the JSON parser, specified by a grammar over characters; error
  positions count UTF-8 bytes.
- `filter`, `json_value_filter`: filter expressions and their application.
- `json_printer`: compact and pretty printers, string escaping, key order, and
  proofs about what they print:
  - a printed string reads back as itself, and the reader stops right after its
    closing quote, whatever text follows;
  - keys are written as string literals, escaped as string values are;
  - a printed value reads back as itself when it holds no number (numbers are
    formed as floating point outside the library) and no key twice in one object;
    with sorted keys it reads back with its members in key order;
  - the pretty text with its layout whitespace taken out is the compact text, when
    no string or key holds whitespace;
  - printing a value writes the chosen printer's text, and a line break at the top
    level.
- `surrounding_whitespace`: whitespace before and after a JSON text does not change
  the value that the parser reads from it.
- `parsed_values`: every object the parser returns has each key once.
- `parser`: a second reader in combinator style over string slices.
- `cli`: the command line (`jq [options] [filter] [json_text_or_file]`, or
  `jq [options] file`), up to the question whether an argument names a readable
  file; the program answers that.

`app/main.rs` is the program: it reads the arguments, the file or standard input, and
writes numbers, which the library hands over digit by digit, as floating point.
