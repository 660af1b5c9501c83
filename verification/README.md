# the_third_sloppening

The text-editing core of a native text editor, verified with Verus.

- `src/piece_tree.rs` — a piece table over an immutable source buffer and an
  append-only buffer of inserted bytes; insertion, deletion and windowed
  reads are proved against the document as a byte sequence.
- `src/line_index.rs` — the start offsets of the lines of a text, found chunk
  by chunk in parallel (rayon, memchr) and looked up by binary search.
- `src/editor.rs` — the editing state the window drives: a UTF-8 text with a
  byte-offset cursor that always sits on a character boundary, scrolling,
  the visible window of lines, and the key and click rules.
- `src/text_lines.rs` — lines of a byte text and how they join back.
- `src/utf8.rs` — SIMD UTF-8 validation (simdutf8) and UTF-8 facts.
- `src/mmap_buffer.rs` — the source buffer a document starts from.
- `app/` — the window, GPU text rendering, file mapping and saving.
