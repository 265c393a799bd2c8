# saioawe

A self-hosted agent workflow orchestrator: agents are described by agent
cards, wired into directed workflows, run against a local Ollama server and
given tools through MCP servers; workflows run on demand or on a cron
schedule.

The decisions the orchestrator makes are written in Verus and proved against
their specifications; the program around them (HTTP API, SQLite store, model
and MCP clients, scheduler loop) is ordinary Rust.

## Layout

- `src/` — the verified library.
  - `graph.rs`, `dfs.rs` — node ids, loop-back edge classification by a
    depth-first search (every loop-back edge closes a cycle; the other edges
    form an acyclic graph), and graph validation.
  - `plan.rs`, `engine.rs`, `run.rs` — a workflow run as a state machine:
    which activations start, how outputs flow along (conditional) edges, how
    skips cascade, how loops re-activate nodes within the step budget, and how
    pending edges settle when the run goes quiet.
  - `condition.rs`, `input.rs` — edge conditions and the input a node is given.
  - `agent.rs` — an agent's prompt, model, tools and its conversation loop.
  - `mcp.rs`, `json.rs` — tool naming, tool listings and results, server-sent
    events, JSON-RPC replies.
  - `scheduler.rs`, `cronspec.rs` — cron normalization, due schedules, and
    the first window after a restart (missed fires collapse into one run).
  - `records.rs`, `requests.rs`, `order.rs`, `guard.rs` — run records, API
    rules, listing order, and the same-origin guard.
- `tests/` — tests of the library.
- `app/` — the server: `main.rs` wires the API (`api.rs`), the store
  (`db.rs`), the Ollama client (`ollama.rs`), MCP connections (`mcp.rs`), the
  run driver (`engine.rs`) and the scheduler (`scheduler.rs`).
