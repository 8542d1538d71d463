# scope_engine

A small server-side HTML template engine in the style of Alpine.js
attributes, verified with Verus.

A template is parsed with `tl`; each tag may carry

- `x-data="{ ... }"`: a JSON object (single quotes allowed) pushed as a scope
  for the tag and its content;
- `x-if="cond"`: the tag is dropped when the condition is false;
- `x-for="item in items"`, `x-for="(item, i) in items"`, `x-for="n in 3"`:
  the content is repeated per item, each with a scope of its own;
- `x-text="path"`: the content becomes the value looked up in the scopes;
- `:name="expr"` or `x-bind:name="expr"`: the attribute is written with the
  evaluated expression, backtick templates with `${...}` included.

## Layout

- `src/text.rs`: character helpers (trim, find, split, integer parsing and
  printing).
- `src/json.rs`: JSON values, their model, and the calls into `serde_json`.
- `src/expressions.rs`: token resolution, conditions, backtick templates.
- `src/html.rs`: the parsed template and the call into `tl`.
- `src/attributes.rs`: the processor trait, `x-if`, `x-text`, `x-bind`,
  `x-text` lookups and attribute serialisation.
- `src/compile.rs`: the compiler, `x-for`, `x-include`, and the laws of
  compiling.
- `src/data.rs`: data providers (files, SQLite, HTTP), what they read, and
  the scopes made of what was read (HTTP status and body, SQLite rows).
- `app/`: the HTTP server and the file, database and network reads.
- `tests/`: tests of the library.
