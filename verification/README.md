# tabnas_xml

An XML 1.0 reader whose decisions are verified with Verus: byte-order
marks and transcoding, the tag scanner, entity references and DOCTYPE
declarations, attribute defaults, and namespace resolution.

## Layout

- `src/` — the verified library.
  - `bom.rs` — `decode_bom` and `strip_bom`: UTF-8, UTF-16 and UTF-32
    by their byte-order marks.
  - `entity.rs` — character classes, line-end and attribute-value
    normalisation, entity references (checking and decoding), and the
    entity and ATTLIST declarations of an internal subset.
  - `decl.rs` — the ExternalID, parameter-entity and `standalone="yes"`
    patterns.
  - `lex.rs`, `tag.rs`, `doctype.rs` — the scanner: one call reads one
    construct from the front of the source and updates the per-parse
    state (element depth, DOCTYPE declarations, standalone flag).
  - `tree.rs` — options, elements made from tags (with defaults filled
    in), and the document-level checks.
  - `namespace.rs` — prefix, local name, namespace, `xml:space` and
    `xml:lang` over the finished tree.
  - `ordered.rs` — the `indexmap` maps the library keeps, with the
    contracts of the methods it calls; `textmap.rs` — name-to-text maps;
    `text.rs`, `stdx.rs` — string helpers.
- `app/` — the plugin for the `tabnas` parsing engine: it runs the
  scanner as a lexer matcher and builds the engine's values with the
  library's tree functions.
- `tests/` — the test suite.
