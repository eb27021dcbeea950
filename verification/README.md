# itgla

A local inventory of servers, projects and resources: tags, IP addresses,
ports and custom columns, filtered, sorted and imported from spreadsheets
and delimited text. The rules of the inventory are written in Verus and
proved against their contracts.

## Layout

- `src/` — the verified library.
  - `text.rs`: the character model of strings (trimming, splitting, ASCII
    case folding, substring search, decimal numbers) and its lemmas.
  - `domain.rs`: servers, projects and resources; validation and
    normalization of tags, ports, names and server drafts; resource search.
  - `table.rs`: the server table — filters, the orders of every sort mode,
    the tag list, and the laws of the record order.
  - `sorting.rs`: a stable insertion sort over an item slice and a key slice.
  - `import_data.rs`: import files — header normalization, row shapes and
    bounds, reading delimited text through `csv`, and building the table of
    a worksheet's rows.
  - `import_mapping.rs`: mapping import columns onto server fields.
  - `storage_rules.rs`: the decisions of the SQLite store.
  - `folds.rs`: facts about folds that stop at the first error.
- `tests/` — tests of the library on concrete values.
- `app/` — the command-line entry point, the SQLite store (`rusqlite`),
  file reading and opening workbooks (`calamine`), address parsing, the
  clipboard (`arboard`) and error types with `Display`.
