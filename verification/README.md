# docx2txt

Extracts plain text from Office Open XML (.docx) word-processing documents,
keeping basic formatting cues: list markers with their indentation,
paragraph alignment, horizontal rules for paragraph borders, upper-cased
"caps" runs, bracketed superscript cross-references. A second tool writes a
copy of a package without its personal metadata.

The library is verified with Verus.

## Layout

- `src/convert.rs` — the conversion, step by step, with its specification
  (`convert_text`) and the entry points `convert` and `convert_parts`.
- `src/captures.rs` — regular-expression matches and the verified splicing
  of replacement text into a document.
- `src/ooxml.rs` — relationships, numbering definitions, paragraphs,
  hyperlinks and entities.
- `src/list.rs` — the list-numbering state machine.
- `src/numerals.rs`, `src/strings.rs`, `src/tables.rs`, `src/text.rs` —
  counters, numbers, character tables and text helpers.
- `src/archive.rs` — reading package parts.
- `src/scrub.rs`, `src/strip.rs` — removing personal data.
- `app/` — the command-line programs (stdin/stdout and file access).
- `tests/` — tests against generated packages and the library functions.
