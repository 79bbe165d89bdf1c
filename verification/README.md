# rahn

A stateful execution architecture for evolving networks: a network
topology (nodes, interfaces, links) kept as deterministic, content-addressed
state, changed only through checked transitions, verified against a
constitution before it is committed, and merged fail-closed.

The crate is a Verus library (`src/`) whose functions carry contracts that
Verus proves, and a thin command-line program (`app/`) around it that does
the file I/O and spawns processes.

## Library layout

- `model`, `transition`: the network, its invariants, and operations on it.
- `canonical`, `identity`, `commit`, `store`: the canonical byte encoding,
  SHA-256 state ids, commit records, and object framing with integrity
  checks (an object is named by the SHA-256 of its payload).
- `diff`, `graph`, `invariants`, `constitution`, `constitution_text`:
  semantic diff, reachability and lexicographically least shortest paths,
  and verification against `require-connectivity` / `prohibit-connectivity`
  rules.
- `merge`, `rebuild`, `history`, `dist`: three-way semantic merge, the laws
  that relate diff, plan and merge, merge bases and history containment,
  and the per-branch decisions of two-replica synchronization.
- `obs`, `causal`: the observation log and the causal DAG of asserted
  relations between observations and commits.
- `sim`, `exec`: execution plans, the simulation backend, and the
  namespace-scoped `ip` commands of the Linux backend.
- `args`, `cli`, `flow`, `render`, `describe`: argument parsing, command
  rules and output text.
- `text`, `seqs`, `sorted_map`: string order, sequence lemmas, and the
  ordered map the model is built on.

Laws that relate several functions stand as public proof functions named
`law_*`.

## Building and checking

`src/` is verified with Verus; `tests/` holds ordinary Rust tests run
against the compiled library; `app/` is an ordinary binary crate that
depends on the library.
