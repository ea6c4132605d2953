# mda_core

The core of a time-aware, searchable knowledge layer over a folder of markdown files,
written in Verus: the logic is executable Rust whose behaviour is stated in `requires` /
`ensures` contracts and proved.

## Layout

- `src/` — the verified library. Parsing markdown into heading-delimited sections
  (`markdown`), section diffs (`diff`), chunk planning (`planner`), the validation of
  model-written cards (`validate`), the text rules of search (`search`, `store`), the
  upsert plan of a document (`upsert`), the watcher's debouncer and hint classification
  (`watch`), the daemon's decisions (`daemon`, `hot`), the evaluation harness's integer
  logic (`eval`, `docsqa`, `dataset`, `analysis`, `paired`, `split`), and small shared pieces
  (`text`, `sets`, `paths`, `timefmt`, `json`, `config`). Calls into `blake3`, `comrak`
  and `jiff` go through small trusted wrappers whose contracts name what they return.
  Laws that relate several functions are public proof functions named `law_*`.
- `tests/` — ordinary Rust tests of the library on concrete values.
- `app/` — the unverified edges: files, the directory walk (`ignore`), TOML and JSON
  (`toml`, `serde_json`) and the floating-point scoring.
