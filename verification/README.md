# html_parser

A small HTML parser whose behaviour is stated in contracts and proved with Verus.

`Dom::parse` reads a document or a fragment into a tree of `Node`s (elements, text and
comments); the tree can be written back as markup, stripped of its tags, iterated, or walked
depth first with a callback.

## Layout

- `src/syntax.rs`: the grammar as spec functions (`document_tokens` and the rules it uses).
- `src/tokenizer.rs`: the tokenizer, proved to compute exactly `document_tokens`.
- `src/grammar.rs`: the token tree (`Pair`, `Rule`) and its model (`Tok`).
- `src/dom/`: the tree (`Dom`, `Element`, `Node`, `Text`, `Attribute`), the insertion-ordered
  collections `VecMap` and `VecSet`, and the building of the tree from the tokens
  (`Dom::build_dom`, specified by `dom_result`).
- `src/for_each.rs`: depth-first walks with a callback (`ForEach`), and `WalkCursor`, whose
  walk is proved to visit what `ForEach::for_each` visits.
- `src/strs.rs`: string helpers (whitespace, trimming, splitting).
- `app/`: what stays outside the proofs: JSON output through serde, and the walks whose
  callback changes the tree or awaits.
