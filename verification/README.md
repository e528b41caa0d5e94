# luminess

A template engine for `{{ variable | DIRECTIVE, "default" }}` interpolation,
`@include`, `@include_header(..)` and `@include_footer(..)` directives,
`{% if %}`, `{% for %}` and `{% raw %}` blocks, written in Verus. The library's
functions carry contracts over a mathematical model and are proved against
them, with one exception: a few small trusted wrappers around std and
serde_json calls (`String::from_utf8_lossy`, `String::push`,
`str::to_uppercase`, `str::to_lowercase`, `io::Error`'s kind and message,
`serde_json::to_string` on a string) whose contracts are believed, not proved;
each states in its doc comment what it claims of the call.

## Layout

- `src/lexer.rs`: tokenizing; `lex` is the specification of the whole lexer
  over the bytes of a source, and `Lexer::tokenize` is proved to compute it.
- `src/parser.rs`: tokens to the tree of nodes (`parse_tokens`); each `if`,
  `else`, `for` and `raw` block ends at its closing token, and blocks nest.
- `src/renderer.rs`: rendering a tree with a context. `TemplateRenderer::render`
  gives a `RenderPlan`: the output up to the first failing directive, with the
  includes it needs. `TemplateRenderer::expand` takes the sources of those
  includes, which the caller has read, compiles each and renders it in place
  with the same context; its own includes are left for the next round, and an
  include that repeats one of the chain it stands within stops with a circular
  reference error. `RenderPlan::finish` gives the text once no include is left.
- `src/directives.rs`: `TRIM`, `UCASE`, `LCASE`, `ESCAPE_HTML`, `STRIP_TAGS`,
  `JSON_ENCODE`, and `FORMAT_DATE` (a Unix timestamp written as a `%Y-%m-%d` date
  placeholder).
- `src/context.rs`, `src/json.rs`: the data a template reads, as JSON values
  keyed by name, with path lookup and truthiness.
- `src/resolver.rs`: where a template, header or footer is looked for, and which
  existing file is chosen, with the variant fallbacks.
- `src/error.rs`: the error type, its display text and user messages.
- `src/text.rs`: string helpers shared by the modules.
- `src/lib.rs`: the engine, `Luminess`, holding the configuration and the
  compiled templates by name.
- `app/lib.rs`: what touches the file system and `serde_json` values: loading
  templates, reading includes, rendering to HTML, JSON or text, and an error
  type with `Display`.
- `tests/`: executable tests of the library.
