# prov_mutate

Mutations of a plaintext workspace that keep its links true: documents are created,
adopted, moved, retitled, split, copied, converted and removed, and every link that
touches them follows.

- `src/` is the library, verified with Verus. A `Workspace` holds the files of a
  workspace, its vocabulary of relations, its settings, its identifiers and the
  document it starts at. Each operation has a plan, a `ChangeSet`, and lands it as
  one: `rename` is `plan_rename` and `commit`. Contracts speak of the workspace
  before and after; laws over several operations are the public proof functions
  named `law_...`.
- `app/` reads a directory into a `Workspace` and makes the planned changes on disk.
- `tests/` runs the library on workspaces in memory.

What the library takes from outside: `fig` reads and edits metadata, `twig` reads
prose and writes it in another grammar, `sha2` computes checksums, and `moid` issues
identifiers.
