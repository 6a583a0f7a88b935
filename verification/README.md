# style_traversal

The decisions of a style traversal: which nodes of a DOM tree are visited, how the style
of an element is recalculated and what its children are told, how a style is resolved on
demand, and when style data is thrown away. The library is written in Rust and verified
with Verus.

- `src/dom.rs` holds the tree with its style data and dirty-descendants bits, `src/data.rs`
  the style data of an element, `src/restyle_hints.rs` the restyle hints, `src/context.rs`
  what workers know and count.
- `src/traversal.rs` decides which nodes are visited (`DomTraversal`).
- `src/recalc.rs` recalculates the style of one element (`recalc_style_at`).
- `src/resolve.rs` resolves a style on demand (`resolve_style`).
- `src/clearing.rs` clears the data below an element (`clear_descendant_data`).
- `src/laws/` states and proves what holds of whole traversals, recalculations and
  resolutions.

Selector matching, the cascade, the bloom filter, the style sharing cache and selector
invalidation are services of a style engine. The library asks for them: a recalculation
or resolution states a request, takes the reply, and states the next request. In the same
way a walk over children yields one child at a time, so that each can be processed before
the next is judged. `app/` makes the calls.
