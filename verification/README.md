# markdown_core

The grammar-independent core of a Markdown processor, written in Verus. The
functions in `src/` carry contracts that Verus proves, except a few small
trusted wrappers (marked `external_body`) around std and serde_json calls:
`Arc::clone` and `Arc::ptr_eq` (in `shared`), `String::from_utf8`, `dyn Any` access, and JSON
equality and title lookup. Their contracts state what those calls document.

- `source`: views of source text. A view holds normalized text (CR LF and lone
  CR become LF, NUL becomes U+FFFD) and maps each byte boundary back to the
  original input. Views can be joined from ranges, have their tabs expanded to
  four-column stops and restored, and give back the literal text of a range.
- `block`, `inline`: line splitting, the last nonblank line and the step
  after a block rule matched, link reference definitions, bracket inhibition
  and the inputs handed to inline and text rules.
- `scan`: the state of scanning an inline view, where every token made
  counts against the token limit and literal text joins the text before it.
- `ast`: the syntax tree and node shape rules; `validation` checks a whole
  document (spans, shapes and resource limits) in preorder.
- `definitions`, `engine`, `scopes`: plugin declarations and groups whose
  identity is the instance, and the display-name checks over them.
- `tokens`, `grammar`: joining inline text tokens, and the dispatch table of
  inline rules by byte; `inline` also checks and splits the matches that
  inline and text rules return.
- `encoding`: the checks a document passes before JSON encoding, and the
  byte-limited output buffer.
- `budget`, `tree`, `parser`: the processing limits of one parse (work,
  tokens, depth), building the inline tree from opener, closer and atom
  tokens, and the checks a parse ends with (input size before, every node of
  the result after).
- `builder`: composing a grammar from plugins (add, remove, reorder rules)
  and compiling it into rules by phase and an inline dispatch table.
- `shared`: the two shared-handle operations that give declarations,
  groups, plugins and rules their identity.
- `schemas`: payload schemas gathered from several profiles; `render`: the
  output budget of a render.

`app/` holds what Verus does not see: serde and `Display` copies of the
library's types, converted both ways, and the JSON write of a checked
document.
