# helix_core

Edge-based selections and cursor motions over a `ropey` text, verified with
Verus.

Every position is an edge between two chars. A range `(anchor, head)`
selects the half-open interval between its edges and has its cursor at
`head`; a point selects nothing. A selection holds one or more ranges and
names one of them primary.

## Layout

- `src/text.rs` — what the library reads of a `ropey::RopeSlice`: its chars,
  UTF-8 byte offsets and lines, with the trusted wrappers around `ropey`.
- `src/graphemes.rs` — extended grapheme cluster edges, through
  `unicode-segmentation`.
- `src/chars.rs` — char classes for word motions.
- `src/selection.rs` — `Range`, `Selection` and the operations on them:
  grapheme alignment, validation, line ranges, splitting, and mapping
  through edits given as changes `(from, to, inserted_len)` of the old
  text: endpoints first, then alignment to the new text, then one
  normalization.
- `src/normalize.rs` — collision normalization of a selection and its laws:
  the result is sorted and disjoint, never longer than its input, keeps the
  primary, covers every input, does not depend on the order of the input, and
  is idempotent.
- `src/movement.rs` — motion shapes, horizontal, word and paragraph motions,
  and syntax-object motions over the byte spans of the captured objects,
  which the caller's syntax tree supplies.
- `src/search.rs` — the `n`th occurrence of a char before or after an edge.
- `src/surround.rs` — finding surround pairs around a range: the closest
  bracket pair, the pair of a given char (identical delimiters included), and
  the surround positions of a whole selection.
- `tests/` — the test suites.
- `app/` — standard-library trait implementations that cannot live in the
  verified library (`Display` for surround errors, an `Iterator` over line
  ranges).


## Left out

These need code that neither this project nor its dependencies hold:

- vertical motions (visual and by lines), which depend on the editor's
  text layout (soft wrap, annotations, tab widths);
- syntax-tree access: finding parent nodes, textobject queries and
  syntax-aware bracket matching. The motions and surround searches take what
  a tree would answer (object spans, a bracket's match) as arguments
  instead;
- regex selection and splitting, which need a regex engine;
- `Selection::contains`, which relies on a set-inclusion helper of the
  editor's standard library.
