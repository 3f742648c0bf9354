# froodi

A scoped inversion-of-control container, verified with Verus.

Instantiators are registered by type, each in a scope (`Runtime`, `App`, `Session`,
`Request`, `Action`, `Step` by default, from the widest to the narrowest). Containers form
a chain of scopes: a container resolves a type in its own scope by calling the type's
instantiator, delegates a type of a wider scope to the container of that scope, and refuses
a type of a narrower scope. Resolved values are cached per container and, when their type
has a finalizer, finalized when the container closes, latest first.

## Layout

- `src/` — the verified library.
  - `any.rs`, `type_map.rs`: type identities and the maps keyed by them.
  - `scope.rs`, `config.rs`, `dependency.rs`, `errors.rs`: scopes, instantiator
    configuration, dependencies and errors (with their reports).
  - `context.rs`, `cache.rs`: values handed to a container and the values it resolved.
  - `registry.rs`: registries of instantiators and their check for cyclic dependencies.
  - `builder.rs`: the builder that sorts instantiators into one registry per scope.
  - `container.rs`: the tree of containers built from a registry: building child
    containers, the steps of resolving a type, recording instances, closing.
  - `resolve.rs`: resolving through instantiators, and closing with finalizers.
  - `inject.rs`: the wrappers in which instantiators receive their dependencies.
- `tests/` — tests of the library.
- `app/` — typed handles over the tree: instantiators and finalizers made from closures,
  containers that close when their last handle is dropped, asynchronous containers paired
  with synchronous ones, the errors as standard errors, automatic registration.
