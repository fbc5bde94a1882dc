# peach

The core of a forensic log viewer, verified with Verus.

Logs of several kinds are parsed into one timeline of entries, the entries are
tagged by rules, and the timeline is kept in a session that can be handed on as
a case. The library holds the logic of all this as functions from values to
values; `app/` reads files, databases and the network around it.

## Layout

- `src/parsers/` — one module for each kind of source: unified logs, Biome
  streams (with the SEGB container and schemaless protobuf messages), Windows
  event logs, intrusion logs, the journal, and text formats that a configuration
  describes.
- `src/tagging/` — rules and rule files, the engine that applies them, the
  built-in packs, and bundles of rules: reading, comparing and updating them.
- `src/session/` — what a session stores of itself, and portable cases.
- `src/` — what these share: texts, numbers, digests, paths, JSON and TOML trees,
  instants, sorting, and the entries of a timeline.
- `tests/` — the library on concrete values, with the outside crates linked.
- `app/` — input and output.

## What is stated

The contract of a function says what it returns for every argument, over spec
functions beside it: which bytes are a record, which rule matches an entry, what
a file holds after a change, which error comes first. A function that reads also
says that it gives back what was written: a saved draft, a new rule, a stored
list, a case. What holds of several functions stands as a public proof function whose
name begins with `lemma_`: that an import takes a case exactly when it is intact,
that skipping bad records keeps the good ones, and the like.

What outside crates compute is called behind small functions whose contracts are
not proved. Each names the outside function in its comment and says what is
taken from it; where a result would take pages to describe, it is given a name
and nothing more.
