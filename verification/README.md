# cargotom

A verified library behind an editor language server for `Cargo.toml` and
`Cargo.lock` files. The library reads a manifest into its declarations
(dependencies, their sources and features, the crate's features, workspace
members) together with the byte ranges where they are written, checks them,
and computes what the editor shows: diagnostics, hovers, completions, code
actions, inlay hints with locked versions, and formatting. Every function in
`src/` carries a contract that Verus proves; calls into `taplo`, `url`,
`regex`, `fst` and `trie_rs` go through small trusted wrappers
whose contracts say only what those crates document.

Layout:

- `src/text.rs`, `src/order.rs`: character helpers and three-way orders.
- `src/rust_version.rs`, `src/version_string.rs`, `src/registry.rs`,
  `src/crate_info.rs`: the version forms and their orders.
- `src/tree.rs`, `src/dom.rs`, `src/raw.rs`, `src/generate_tree.rs`: syntax
  trees of TOML text with byte ranges; `dom.rs` describes taplo's document
  tree as plain values, and each tree is stated as a function of it.
- `src/toml.rs`, `src/manifest.rs`, `src/readable.rs`, `src/positioned.rs`,
  `src/structure.rs`: what a manifest declares.
- `src/analyze.rs`, `src/assist.rs`, `src/hints.rs`, `src/document.rs`,
  `src/position.rs`, `src/formatting.rs`: what the editor is told.
- `src/lock.rs`, `src/info_api.rs`, `src/offline.rs`, `src/sorted.rs`:
  lock files and registry data.
- `src/static_structure.rs`: the documentation schema of manifest keys.
- `src/cache.rs`, `src/requests.rs`: the crate-data cache's decisions and
  the registry addresses and replies.
- `src/search_index.rs`: the offline search index of crate names.
- `src/offline_store.rs`: an offline crate list filed by a normalized key
  in a trie.
- `src/entry_completion.rs`: completions of crate names, version snippets
  and versions, and feature-list entries.
- `src/entry_actions.rs`: the code actions on a dependency entry (edits
  with line and column ranges, pages, the update command) and the upgrades
  the registry's versions allow.
- `src/config.rs`, `src/daemon_config.rs`: settings and their defaults.
- `app/`: the command-line front end (file access, argument handling, and
  the serde forms of lock files, of the schema and of the settings, the
  reading of the offline crate list, and the readme's HTML turned into
  Markdown with `html2md`).
- `tests/`: tests of the library on concrete inputs.
