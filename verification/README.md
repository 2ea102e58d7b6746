# nimaproxy

A key-rotating, latency-aware proxy for the NVIDIA NIM API, with model racing.

`src/` is the library, verified with Verus: the key pool and its AIMD windows, the
per-model statistics and circuit breaker, routing and racing decisions, the request
rewrites (roles, tool calls, message order, per-model parameters), configuration defaults,
PID-file and command-line handling, the turn-log query engine, and small JSON and text
helpers. Raw bodies are read and written as JSON through `serde_json`, behind the two
trusted wrappers of `json_text`. Each public function states its result in its `ensures`; the `law_*` proof
functions state what holds across calls.

`app/` is the process around it: the axum server and its handlers, upstream HTTP calls,
the TOML loader, the turn-log file, the periodic catalog recheck, the C interface, and the
`nimaproxy query` subcommand. It hands plain values to the library and acts on what comes
back.

`tests/` runs the library on concrete inputs.
