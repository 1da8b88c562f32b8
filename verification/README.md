# launcher_core

The core of a desktop application launcher, verified with Verus.

- `src/` — the verified library:
  - `text` — character-level string primitives (trim, find, split, lines,
    words, join) with their specifications;
  - `app_loader` — reading applications from `.desktop` file contents;
  - `search_engine` — ranking applications against a keyword (exact, prefix,
    substring, fuzzy) and ordering the results;
  - `app_usage` — launch counts per desktop file;
  - `env`, `app_runner`, `str_util` — paths, command lines, Chinese text;
  - `app_data_object`, `app_provider`, `launcher_window`, `settings_window`,
    `search_result_item`, `system_env`, `config_data`, `mock` — the decisions
    behind the launcher's windows and its sample data.
- `tests/` — tests run against the compiled library.
- `app/` — a command-line launcher: environment, file system, JSON and
  process access around the library.

## Design notes

- `app_usage` keeps the launch counts as a vector of `(desktop file, count)`
  pairs in which no desktop file occurs twice (a type invariant), viewed as a
  map from desktop file to count. vstd specifies `std::collections::HashMap`
  only for key types known to obey its key model, and `String` is not among
  them (stating that it is would be an unchecked assumption); vstd's
  `StringHashMap` cannot list its entries, which saving the record needs.
- `SearchEngine::search` takes the engine by shared reference, so no number
  of searches changes the stored applications or their order; `get_apps`
  returns exactly what `new` was given.
