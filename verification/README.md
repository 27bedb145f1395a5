# vue_oxlint_parser

A scanner and tokenizer for Vue single-file components, written in Verus.
Every function under `src/` carries a contract that Verus proves; the calls
into `oxc` (the JavaScript tokenizer, source types, irregular whitespace) and
`memchr` stand behind small trusted wrappers whose contracts say what those
crates document.

## Layout

- `span.rs`, `text.rs`: byte spans, byte classes, ASCII case folding, and
  UTF-8-aware slicing.
- `sfc.rs`: splits a component into its top-level blocks and the text
  between them; `split_tiles_source` proves that the pieces tile the source.
- `layout.rs`: the layout records of top-level blocks, the search for the
  end of a block body (nested blocks of the same name are balanced), and
  the document built from a layout.
- `scanner.rs`, `attr.rs`, `template.rs`: start-tag cursor, attributes and
  directive keys, and the template tree of a `<template>` body.
- `tags.rs`: element name classes, directive argument/modifier splitting and
  `v-for` splitting.
- `tokens.rs`, `emit.rs`, `scan.rs`, `driver.rs`: the token scanner. `scan.rs`
  states the whole scan as a specification (`scan_from`); `driver.rs` runs it
  and proves that the token streams, comments and source type it produces are
  exactly those of the specification.
- `json.rs`, `oxc.rs`: the JSON token objects that oxc produces, and the
  trusted wrappers around oxc and memchr.
- `bounds.rs`: every span that a scan records lies inside the source.
- `vfor.rs`: the alias and list spans of a `v-for` value, found by the
  `regex` crate.
- `toolkit.rs`: the plain records handed to JavaScript, comment text, and
  diagnostics.
- `source_text.rs`, `transform.rs`: byte offsets turned into the UTF-16
  offsets that JavaScript counts in (through oxc's converter), and the
  comment and diagnostic records with such offsets.
- `expression.rs`: how a `v-for` alias or a `v-slot` value is wrapped to be
  read as arrow-function parameters.
- `codegen.rs`: prints an `import` declaration (held as plain values) back
  to text and records where each node landed in the output.

`tests/` holds the behaviour tests.
