# jwc

JSON with comments (`//` line and `/* */` block comments), parsed into trees
that keep the comments attached to the values they belong to, edited through
JSON Pointer (RFC 6901) and JSON Patch (RFC 6902), and written back out. The
library is written in Verus: every function states what it does in
`requires` / `ensures` and is proved to do it.

## Layout

- `src/lazy_parser.rs`, `src/lazy_val.rs`: the lazy tree. Strings and numbers
  stay slices of the source and are decoded on demand; the members of every
  object are sorted by key when it is parsed, so `LazyVal::get` is a binary
  search. The grammar is written as spec functions (`parse_document` and the
  functions it calls), `from_str_lazy` is proved to follow it, and the laws
  `lemma_document_sorted`, `lemma_sort_multiset`,
  `lemma_close_members_permutes` and `lemma_document_decodable` say that
  parsed objects are sorted, that sorting keeps every member, and that every
  parsed string can be decoded; `lemma_malformed_escape` and
  `lemma_decode_fails_iff` say which escapes fail to decode, and that a
  string fails to decode exactly when decoding reaches one of them.
  Between tokens the lazy reader skips comments and any character with the
  Unicode White_Space property (`skip_trivia_wide`); the owned parsers below
  take JSON whitespace only (space, tab, line feed, carriage return).
- `src/parser.rs`: the parser that builds owned `Node` trees, decoding
  strings and checking numbers as it goes (`owned_document_with`).
  `Parser::parse` keeps a key that repeats in an object; `from_str` and
  `from_slice` refuse it (`owned_document`).
- `src/single_pass_parser.rs`: the single-pass parser (`spp_document`).
- `src/parser_core.rs`, `src/simd.rs`: the cursor shared by the parsers:
  whitespace and comments, string and number scanning, line/column positions
  (`lemma_line_col_counts_chars`: columns count characters, not bytes).
- `src/ast.rs`: comments and owned values; `src/keys.rs`: the order of keys.
- `src/lazy.rs`: `LazyValue`, a value kept as its source text (of any kind,
  or declared to be an object or an array) inside an owned tree, written out
  as that text until `thaw` parses it once with `from_str` and keeps the
  result; text of the wrong kind is a type error and is left in place.
- `src/pointer.rs`: JSON Pointer tokens and paths, reading and writing
  through them (`lemma_pointer_write_read`, `lemma_value_set_twice`, ...).
- `src/patch.rs`: JSON Patch (`patch_all`), with what each operation leaves
  behind (`lemma_add_then_read`, `lemma_remove_undoes_add`,
  `lemma_add_to_array`, ...).
- `src/serializer.rs`: layouts, comment policies and string escaping; the
  text of a tree is `node_text`.
- `src/roundtrip.rs`: `lemma_written_document_reads_back`: text written with
  comments kept parses back to the tree it was written from.
- `src/error.rs`, `src/text.rs`: errors; the Unicode White_Space set
  (`is_whitespace`, written out and proved against its list); and the few
  calls into std that vstd does not describe (`Debug` formatting,
  `String::push`, `char::from_u32`, `str::from_utf8`).
- `app/`: what needs floating point (reading number lexemes as `f64`) or
  I/O (`from_reader`, `to_writer`, `to_writer_pretty`).

Numbers that are not integers fitting in an `i64` are kept as their text;
converting them to `f64` is left to `app/`. The library's
`LazyVal::as_exact_i64` and `LazyVal::as_exact_u64` are integer-only: for a
lexeme such as `1.5e1` they return `None`. `app/` provides `as_i64` and
`as_u64` for `LazyVal` (trait `FloatReadings`), which fall back to the
lexeme's `f64` reading truncated toward zero, so `1.5e1` gives `15`.
