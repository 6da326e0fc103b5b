# schematron-engine

ISO Schematron in verified Rust: a schema (`pattern`/`rule`/`assert`/`report`)
is parsed from XML, and a document is evaluated against it, with one report for
each check that fires. Verus proves that the code computes what its contracts
say.

## Layout

- `src/` is the library.
  - `xml`, `grammar`, `parser`: from XML text to a tree, which schema a tree
    stands for, and the parser that computes it.
  - `resolver`, `inclusion`: `<include href="...">`, expanded before parsing.
  - `document`, `xpath`: the documents that schemas are evaluated against, and
    XPath 1.0 over them.
  - `context`, `semantics`, `engine`: rule contexts, what a schema means for a
    document, and the evaluation that computes it.
  - `parsing_laws`, `insertion_laws`, `evaluation_laws`, `text_laws`: what
    follows from these definitions, proved.
- `app/` evaluates schemas over any `xpath_eval` document and gives the
  library's errors the standard error traits.
- `tests/` runs the library.

XML is read by `roxmltree` and XPath is evaluated by `xpath_eval`. What their
results are is taken from them; what the library does with these results is
proved.

## What is supported

| Construct | Behaviour |
|---|---|
| `<extends rule="...">` | the checks and bindings of another rule of the pattern |
| `<extends href="...">` | `MissingAttribute`: `rule` is required |
| `<let value="...">`, `<let>` with literal XML | an XPath value, or the text of the content |
| `<value-of>`, `<name>` in messages | evaluated at the firing check's node |
| `<emph>`, `<dir>`, `<span>` in messages | only their text counts |
| `rule/@context` | `descendant-or-self::node()/context` for each alternative of a union; `/` as it is |
| `<include href="...">` | `UnexpectedElement` with `parse`, expanded with `parse_with_resolver` |
| `schema/@queryBinding` | absent, `xslt` or `xpath` in any case; else `UnsupportedQueryBinding` |
| a root element other than `<schema>` | `WrongRootNamespace` |
| unknown or misplaced Schematron elements | `UnexpectedElement`, also in abstract rules and patterns, used or not, and in messages |
| `<title>`, `<p>` where they are admitted | accepted; their content is not read |
| content of `<let>`, `<value-of>`, `<name>` | free: the text of a `<let>` counts, the rest is not read |
| elements of other namespaces | allowed anywhere |
| two elements with the same `id` | `DuplicateId`, over the whole document |
| `active/@pattern` without such a concrete pattern | `UnknownActivePattern` |
| `@diagnostics` without such a diagnostic | `UnknownDiagnosticReference` |
