# meon — verified standalone scanners

The scanning core of a flat, span-based text parsing engine, written in
Verus: every function carries a contract, and Verus proves each body
against it.

Every element is a `Span { start: u32, end: u32 }`, a half-open byte range
into the source slice; sources are at most `u32::MAX` bytes.

## Layout

- `src/span.rs` — `Span` and `MAX_INPUT_LEN`.
- `src/search.rs` — "first occurrence at or after a position" as spec
  functions, and the `memchr`-backed searches behind them.
- `src/swar.rs` — `find_any`: the first byte of a slice that is any of a
  fixed set of targets (`memchr` for up to three, an eight-bytes-per-step
  SWAR scan beyond), proved against the same first-occurrence spec.
- `src/standalone/` — one scanner per element kind. Each iterator's state
  has a view (a `...Scan` ghost struct) whose `step` says what the next
  item is and `remaining` which items are left; `next` is proved to hand out
  exactly those.
  - `symmetric`, `asymmetric`, `chained`, `key_value`: inline pairs.
  - `line_marker`, `block_marker`, `block_numbered`, `line_uniform`,
    `fence`: line and block elements.
  - `cont`: nesting-aware continuation blocks, with a bounded frame stack.
  - `context`, `context_iter`: the opaque-region map of a source (each
    region marked fenced block or inline) and the scanners that skip its
    regions; only a fenced block ends a pending pair's paragraph.
  - `probe`, `common`: shared helpers.

Besides the per-function contracts, the `lemma_*` proof functions state the
library's laws: what every yielded item looks like; that the inline and line
scanners hand out items in source order without overlap, and that the
continuation blocks come in close order, innermost first, disjoint or
nested; that the streaming and line-by-line rules of the block scanners
agree, and that two marker predicates agreeing on the source's bytes find
the same items; that the context-aware scanners equal their context-free
siblings under an empty context; and that context regions are sorted and
disjoint.

## Checking

`tests/` holds executable tests against the compiled library.
