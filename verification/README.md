# rustweb

A virtual-DOM frontend library with its logic proved correct in Verus:
keyed diffing into patches and the patch applier, deterministic server-side
rendering with hydration ids and a checksum, hydration checks, nested routing
with guards, lazy children and redirects, accessibility linting, root-level
event delegation, a message scheduler, render profiling, UI components, and
the parser of the `html!` markup language.

## Layout

- `src/` — the verified library. Each module states its behaviour over
  mathematical models (`model.rs` for trees, `token.rs` for tokens) and proves
  it. Laws relating several functions are public proof functions:
  `roundtrip::law_apply_diff_gives_new` (applying a diff reproduces the new
  tree, on the class `edit_compatible`: any new attribute list without a
  name twice, handlers changed and listeners dropped or appended, children
  added or removed by position or by key, keyed children reordered,
  components re-rendered or replaced), `roundtrip::law_fewest_moves` (keyed
  children are moved the fewest times: those off a longest increasing run
  of their old positions), `diff_self::law_diff_self_is_empty` (a tree
  diffed against itself needs no patches) and `ssr::law_render_then_hydrate`
  (server HTML hydrates the tree it came from). `codegen.rs` holds the names
  the markup macro derives for component props.
- `tests/` — tests run against the compiled library.
- `app/` — the `rustweb` command-line tool and the runtime plumbing that the
  verifier does not take: panic isolation, components and their contexts,
  the global profiler, test harnesses, JSON snapshots, and the error types
  with `std::error::Error`.
