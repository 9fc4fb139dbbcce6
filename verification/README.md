# lattice

A verified library for traceability graphs: adapters turn source material
(Markdown tables, TOML registers, issue trackers) into a graph of typed nodes
and edges; a profile declares the node kinds, edge kinds, pathways and
validation rules that the graph is held to; validation, queries, summaries,
traces and composed (fused) registers are computed from the graph and the
profile, and rendered as plain text, rich text or JSON.

## Layout

- `src/` is the library, written in Verus. Each public function states in
  its `ensures` what it returns, over spec functions of the modules'
  mathematical models (`Seq`, `Map`, views of the data types).
  - `types`, `graph`, `profile`, `inherit`, `yaml`, `json`: the data model,
    profile loading and inheritance, and the document values they read.
  - `ingest`, `adapter`, `mdadapter`, `mdtable`, `tomladapter`, `gitlab`,
    `gitlabissues`, `githubissues`, `entomologist`, `remote`: adapters and the
    adapter interface.
  - `validate`, `checks`, `coverage`, `deep`, `closure`, `rules`: validation.
  - `query`, `at`, `diff`, `summary`, `trace`, `suggest`: the questions a
    graph answers.
  - `fuse`, `compose`: composing the traces of several sources.
  - `render`, `output`: the text and JSON formats.
  - `text`, `seqs`, `assoc`, `sortkey`, `pattern`: shared helpers; `pattern`
    holds the calls into `regex`.
- Calls into `regex`, `serde_json` and `serde_norway` stand behind small
  trusted wrappers whose doc comments say what their contracts claim.
- `tests/` runs the library on concrete inputs.
- `app/` is the command-line program: argument handling, files, processes and
  the JSON of the `at`, trace, fuse and diff payloads.
