# edgeproxy

A reverse proxy whose configuration pipeline and routing core are verified
with Verus.

- `src/` — the verified library:
  - `config/resolve.rs`: `${VAR}` / `${VAR:-default}` / `${VAR:?message}`
    interpolation over raw configuration text (`.env` before the process
    environment);
  - `config/document.rs`: parsing each configuration document from YAML
    text (through `serde_yaml_ng`) into the library's YAML values;
  - `config/merge.rs`: the YAML deep merge (mappings per key, sequences
    append, anything else replaced) over a model of YAML values, with keys
    matched by YAML equality;
  - `config/model.rs`, `config/blueprint.rs`: the file model and the
    validating conversion to the runtime blueprint, which applies every
    default and reports every problem with its YAML path;
  - `config/report.rs`: the text of the validation and interpolation
    error reports;
  - `proxy/lb.rs`, `proxy/backend.rs`: load balancing (round robin, least
    connections, client-IP hash) and the backend registry entry;
  - `proxy/routing.rs`: hop-by-hop header stripping and request rewriting,
    down to the upstream URL and its authority;
  - `telemetry/`: request ids, access-log levels, metric names and the
    log filter.
- `app/` — the binary: command line, file and `.env` reading, serde
  deserialization of the merged document, tracing/metrics set-up and the
  axum/hyper server.
- `tests/` — tests of the library.
