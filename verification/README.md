# nacos-toolkit

Nacos configuration processing, verified with Verus.

Configs are JSON documents (`JsonValue`, modelled as `Json`). The library
parses YAML and JSON texts into them, renders `${VAR}` templates (dot paths,
up to five passes, undefined variables kept, a placeholder that is the whole
string and names an array or object replaced by that container), deep-merges
configs, converts comma-separated fields into arrays, and holds the decisions
of a caching config manager and of its HTTP transport.

## Layout

- `src/` — the verified library (one module per concern):
  - `json` — the document type, its model, object members, well-formedness
  - `text` — string helpers with contracts (trim, split, code-point order)
  - `codec` — the calls into `serde_json` / `serde_norway`
  - `parser`, `nested`, `merger`, `template`, `utils` — parsing, dot-path
    access, deep merge, templates, and the processing pipeline
  - `local_config` — candidate file names and parsing a file's content
  - `http_client` — percent-encoding, request URLs and bodies, reading replies
  - `manager` — `ManagerCache`, the state and steps of a config fetch
  - `error` — `ConfigError`
- `app/` — the runtime around it: `serde_json::Value` at the API, the async
  `NacosConfigManager` over a `ConfigSource`, the `reqwest` transport, the
  file system, and the process-wide manager.
- `tests/` — tests of the library.

Every public function of `src/` states its result over the model; the
`law_*` proof functions state properties that span functions (reading back a
stored path, merging, rendering, processing and caching keep documents
well-formed, and others).
