# provcfg

Layered configuration that keeps the provenance of every value: which
source set the active value of each leaf, and which earlier values it
overrode.

- `src/` is the library, verified with Verus. A `Schema` lists the leaves of
  a configuration struct (their document keys, kinds and compiled-in
  defaults); a `Config` lists sources in the order they apply (JSON and TOML
  texts, the environment variables under a prefix, a command-line `Partial`,
  or a document of the user's own); `Config::build` reads every source
  against the schema and layers what each sets over the defaults into a
  `Prov`, whose every leaf has a `ValueHistory`. A document gives a struct
  either as an object, by key, or as an array of its tracked fields in
  order. A nested section can be renamed or skipped, as a field can.
- `src/laws.rs` states and proves what holds of every build: the last
  source that sets a leaf wins, overridden values stay in order in the
  history, the environment makes the same document in whatever order its
  variables come, a deeper variable wins over a parent, serialising a
  build writes each active value at its key path and no other key, the
  sources map and `walk_leaves` go over the same leaves, and building from
  a record's own partial gives the record back.
- `app/` is the process-facing edge: reading the process environment and
  files, serde for categories and built configurations, `Display` and
  `std::error::Error` for errors.
- `tests/` runs the library on concrete configurations.
