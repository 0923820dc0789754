# tpt_yaml

A YAML toolkit whose logic is proved with Verus: a lexer and recursive-descent parser that
build an arena of nodes, a streaming event parser, implicit scalar typing for YAML 1.1 and
1.2, span-preserving edits (an unedited document renders back as its source, and nodes an edit
does not touch are copied from the source), canonical pretty-printing, JSON Schema validation, line
and structural diffs, and the query layer of a C interface.

## Layout

- `src/` — the verified library. The lexer, scalar typing, pattern and format rules,
  pretty-printer, diffs and edits are stated in full as spec functions next to their code;
  the parser, the event stream and schema validation carry partial contracts (what each
  step builds or reports, as far as their specs go):
  - tokens: `lexer_spec` (the rules), `lexer_scan` and `lexer` (the scanner), `lexer_spans`
    (every token is a byte range of the source, in order, with its line and column);
  - documents: `document`, `node`, `span`, `parser_tokens`, `parser`, `resolve_spec` /
    `resolve`, `version`, `diagnostics`;
  - events: `event` (listing of a parsed arena) and `stream` (pull-based event parser);
  - editing: `edit`, `edit_path`, `edit_doc`;
  - output: `pretty`, `diff`, `tree_diff`, `hover`;
  - schemas: `schema`, `schema_compile`, `schema_json`, `schema_validate`, `pattern_spec` /
    `pattern`, `format_spec` / `format`;
  - the C interface's status codes and queries: `ffi`, `ffi_query`.
- `tests/` — executable tests of the library.
- `app/` — the `tpt-yaml` command line (`check`, `fmt`, `convert`, `diff`): file I/O,
  argument handling, JSON input and output through `serde_json`, and the floating-point
  decisions that the library takes as parameters (`SexagesimalFloats`, `NumberSemantics`,
  `FloatDisplay`).

Floating-point arithmetic stays outside the library: where a result depends on a double, the
library asks one of those three traits, and its contracts hold whatever the answers are.
