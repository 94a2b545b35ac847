# gik

A transactional version control system with Git-compatible objects. The
library under `src/` is written in Verus: its functions carry contracts
that the verifier proves, and the properties that span several functions
are stated as proof functions whose names begin with `law_`.

- `src/` — the verified library: object encodings (blobs, trees, commits),
  pack entry headers, deltas and whole packs, the smart-HTTP request bodies
  and reply parsing, three-way text merging and tree merge analysis, status,
  staging and undo on the repository state, bookmark resolution, tree
  building, the object walk for push, commit ancestry and lowest common
  ancestors, and the configuration file.
  `src/external.rs` holds every trusted binding to an outside crate.
- `tests/` — tests of the library on concrete values.
- `app/` — the command-line program: argument parsing, the redb database and
  object files, the HTTP client, and the loops that hand the library what it
  asks for.
