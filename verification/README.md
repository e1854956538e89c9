# agent-tool-box

Sync agent capabilities — skills, commands and agents — from a source tree
into the output directories of agent harnesses (`atb sync`).

The crate is a verified library with a thin program around it.

- `src/` — the library, verified with Verus:
  - `model.rs`: the domain types (`Tool`, `Kind`, `Artifact`, `Catalog`,
    `Target`, `Distribution`, `FileOp`, `SyncPlan`) and their views.
  - `path.rs`: `FsPath`, a path held as its components and the text
    written around them (so it displays as written), with the name,
    parent, extension, prefix, join and order operations of Unix paths.
  - `text.rs`: character helpers (trimming, search, order).
  - `frontmatter.rs`: the `---` / `---` frontmatter reader.
  - `discover.rs`: discovery of the artifacts of a kind in a walked tree.
  - `adapter.rs`: the copy plan for each target.
  - `config.rs`: the job built from `--src` / `--dst` / `--kind`.
  - `laws.rs`: properties that span several functions.
- `app/` — the `atb` program: command line, walking the disk, reading the
  primary files, and copying; it hands the library plain values.
- `tests/` — tests of the library on concrete trees.

Duplicate ids are found by a scan of the sorted catalog rather than with a
`HashMap` keyed by id: a map keyed by `String` gives Verus nothing to prove
about its contents, while the scan is verified to report the first repeated
id together with its first occurrence, which is the same pair a map would
report on the sorted catalog.
