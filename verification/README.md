# paws_engine

The core of the Paws engine, written in Verus: the executable code carries
`requires`/`ensures` contracts that Verus proves.

## Layout

- `src/` — the verified library.
  - `document.rs`, `node.rs`, `arena.rs` — the DOM tree in a `slab` arena:
    parent/child links with cycle detection, the connected flag, insertion,
    removal, replacement, deep and shallow cloning, shadow roots, slot
    assignment and the flat tree.
  - `events.rs` — listener registration and the capture / target / bubble
    dispatch algorithm.
  - `stacking.rs` — stacking-context detection and CSS2.1 Appendix E paint
    order.
  - `runtime.rs` — the handle-based host API over a document.
  - `io.rs`, `base64.rs` — URL classification, `data:` URL decoding, the
    response cache and the synchronous fetch path.
  - `cache.rs`, `blob.rs`, `resources.rs` — the byte-budgeted network cache
    with injected policy and eviction, and the blob-URL registry.
  - `hashing.rs`, `text.rs` — the `fnv` maps behind the registries, and
    character helpers.
  - `flatten.rs` — the renderer's bottom-up layer flattening: which nodes
    become platform layers, their parents, kinds and z-order.
  - `diff.rs` — the renderer's frame diff: the create / reparent / reorder /
    update / remove commands between two layer trees.
  - `scroll.rs` — the chain of nested scroll containers.
- `tests/` — tests of the library, run against the compiled crate.

Not carried at all: style resolution and the cascade (stylesheets, inline
styles, computed style maps), layout and text shaping, hit testing, and the
commit of styles and layout. They rest on the `stylo`, `taffy` and `parley`
engines and on floating-point geometry, none of which this crate builds on.
- `app/` — host-side code Verus does not check: the asynchronous network
  controller interface and the native-layer renderer, whose culling,
  layerizing and scrolling compute on floating-point geometry. The
  renderer's two structural passes, the bottom-up flattening and the frame
  diff, are verified in `src/`; `app/` converts to and from them.
