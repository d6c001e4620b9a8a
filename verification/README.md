# kimun_deps

The dependency-graph part of the `km` code-metrics tool, as a Verus-verified library.

- `src/` — the verified library:
  - `model` — per-file entries (path, language, fan-in, fan-out, cycle membership),
    their coupling class, and the analysed result;
  - `edges` — the import graph as an adjacency list whose sources name distinct
    paths, and its completion with every analysed file;
  - `imports` — resolved import lists in path order, duplicates removed;
  - `ranking` — the `--sort-by` orders (a stable sort), `--cycles-only` / `--top`
    selection, the choice between table, JSON and DOT output, and the plan of what
    each output is given;
  - `gomod` — the module path declared in `go.mod` text;
  - `report` — the lines of the text table and the cycle summary;
  - `dot` — the Graphviz DOT export;
  - `cli` — the argument model (exclude filters, common options, `score` and `ai`
    subcommands);
  - `text` — character-level helpers (decimal notation, quoting, path file names).
- `app/` — the command line around it: clap parsing, walking and reading files, reading
  `go.mod`, printing, JSON.
- `tests/` — tests of the library.
