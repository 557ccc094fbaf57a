# tokenmill

Tools for fine-tuning datasets that are kept as JSON lines in the Alpaca, ShareGPT and ChatML
formats: checking them against their schema, counting tokens, filtering, converting, removing
duplicates and drawing samples.

- `src/` is the library, verified with Verus. Each command exists twice: as steps that take one
  line, for streams, and as a run over all lines that is made of these steps and whose contract
  says what the whole run does. Proof functions whose names begin with `law_` state what holds of
  several functions together.
- `app/` is the program around it: the command line, files, the terminal, the Hub and the models.
- `tests/` runs the library on given values.

A line comes into the library as a `Line`: its text, and what reading it as each kind of record
gave. The program reads records with `serde`.

| Module | What it holds |
|---|---|
| `format`, `record`, `detect`, `exchange`, `write` | formats, records, telling the format of a line, turning records into others, writing them |
| `validate`, `stats`, `filter`, `convert`, `dedup`, `sample` | the commands |
| `minhash`, `cluster`, `union_find` | signatures, groups of near duplicates, disjoint sets |
| `table`, `arrow_table`, `parquet` | records in tables |
| `json`, `tokenizer`, `rng`, `text` | what outside crates and the standard library compute |
| `command`, `progress`, `dashboard`, `fmt`, `hub` | running commands and telling of them |
| `select`, `error` | selections of lines, failures |
