# rollback

A small entity-component store with systems, verified with Verus.

Components live in sparse storages addressed by entity index through three
levels of 128-slot blocks; each block keeps a presence, a fullness and a
change mask as `u128`s. Systems are queries over those masks: they select the
entities that hold every viewed component, satisfy `All`, `None` and
`Changed` clauses, and may remove components listed in a `Remove` clause.
Systems can also be declared in a small token language
(`Name { query! { fn f(a: View<Entity>) All=[..] { .. } } }`) and run from
their declaration. Views and clauses name component types, which may carry
generic arguments; a declaration that cannot be read is refused with the
reason (`query!` expected, `View`/`ViewMut` expected, `View<T>` expected),
and one that names an unknown component, or views a component mutably while
another view or clause also reads it, is refused before it runs.

A world holds the entities and their `Destroyed` tags itself; the components
a program adds live in a registry of its own (the `Registry` trait), which
gives each a slot from 2 to 127, names its type to declarations, and hands
out the presence masks of its storages. Each component type implements
`Component` with its slot and where the world keeps its storage.

Layout:

- `src/mask.rs`: bits of a mask, lowest set bit, runs of set bits.
- `src/index.rs`: entity indices and their three-level addresses.
- `src/block.rs`, `src/storage.rs`: blocks and the storage, viewed as a
  `Map<int, T>` with a set of changed indices.
- `src/component.rs`, `src/view.rs`: the components and the views a system
  receives.
- `src/registry.rs`: the registry of the components a program adds.
- `src/query.rs`: the mask walk that selects entities, proved to select
  exactly the matching ones, in index order, as runs maximal within their
  leaf block; such runs are determined by the set they cover.
- `src/world.rs`, `src/system.rs`: the world and the built-in systems.
- `src/dsl.rs`, `src/declared.rs`: the declaration language (parsers proved
  sound and complete against a rendering of the grammar, with the reason
  for a refusal) and running a declared system, which creates the storages
  it names.
- `src/laws.rs`: properties that span several operations.
- `tests/`: tests run against the compiled library.
- `app/`: taking a declaration as the compiler hands it over (a
  `proc-macro2` token stream) in the library's tokens, and printing.
