# factsheet

Per-project memory: facts that are kept one per line in `.factsheet/facts.jsonl`, shown at the
start of a session, and added, edited, dropped, listed, searched and curated by command.

- `src/` is the library, verified with Verus: the facts and their lines, the sheet that is edited
  by hand and how it is taken in, tags, search by word overlap, dates, ids, settings, the store's
  lines and the registry of projects.
- `app/` is the program around it: arguments, files, the lock, the editor and the output.
- `tests/` runs the library on concrete values.

What holds of the library as a whole is stated in the public proof functions whose names start with
`law_`. The calls into the standard library and into the `toml` crate whose contracts are believed
without proof are in `src/text.rs`, `src/words.rs`, `src/clock.rs`, `src/config.rs` and
`src/projects.rs`.
